//! The discrete core of a two-dimensional PCISPH fluid solver.
//!
//! A predictive-corrective SPH solver moves point particles so that they
//! behave as a nearly incompressible fluid between fixed walls. This crate
//! holds the part of such a solver that is about indices rather than
//! positions, and proves it:
//!
//! - [`grid`]: the uniform grid that files particles under cells as wide as
//!   the interaction radius, and the 3x3 query around a cell;
//! - [`neighbors`]: the bounded neighbor lists, filled first found first;
//! - [`placement`]: how many particles a square patch takes;
//! - [`state`]: the particle store's bookkeeping and the update cycle of
//!   integrate, density and projection phases that makes up a frame;
//! - [`simulation`]: the store as a host drives it, with its capacity;
//! - [`config`]: the fixed sizes all of these share.
//!
//! Positions, velocities and the kernels that act on them stay with the
//! caller. The caller tells the solver where the particles landed and
//! which candidates are within range; the solver tells the caller whom to
//! test and whom to keep.

pub mod config;
pub mod grid;
pub mod neighbors;
pub mod placement;
pub mod simulation;
pub mod state;
