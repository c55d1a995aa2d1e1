//! Fixed configuration of the solver's discrete side.

use vstd::prelude::*;

verus! {

/// Substeps that make up one visible frame.
pub const SOLVER_STEPS: usize = 10;

/// Largest number of entries a neighbor list keeps.
pub const NUM_NEIGHBORS: usize = 64;

/// Capacity of the particle store.
pub const MAX_PARTICLES: usize = 30_000;

/// Particles asked for by the initial dam-break column.
pub const DAM_PARTICLES: usize = 5_625;

/// Particles asked for when a block is dropped into the scene.
pub const BLOCK_PARTICLES: usize = 500;

/// Cells across the domain; a cell is as wide as the interaction radius.
pub const GRID_WIDTH: usize = 111;

/// Cells up the domain.
pub const GRID_HEIGHT: usize = 78;

/// Total number of cells.
pub const NUM_CELLS: usize = GRID_WIDTH * GRID_HEIGHT;

/// Width of the drawing surface, in pixels.
pub const WINDOW_WIDTH: u32 = 1024;

/// Height of the drawing surface, in pixels.
pub const WINDOW_HEIGHT: u32 = 720;

} // verus!
