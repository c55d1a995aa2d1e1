[package]
name = "pcisph"
version = "0.1.0"
edition = "2021"

[dependencies]
glam = "*"
rayon = "1"
