//! A verified engine for Conway's Game of Life on a bounded grid.
//!
//! The grid is a dense row-major vector of cells with configurable
//! height and width; edges are hard boundaries (no wrap-around).

pub mod cell;
pub mod coord;
pub mod digits;
pub mod grid;
pub mod rules;
pub mod world;

use vstd::prelude::*;

verus! {

/// Default grid height, in rows.
pub const DEFAULT_HEIGHT: i32 = 10;

/// Default grid width, in columns.
pub const DEFAULT_WIDTH: i32 = 20;

/// Default spawn probability for random initialization, in thousandths
/// (400 means each cell starts alive with probability 0.4).
pub const DEFAULT_SPAWN_MILLIS: u32 = 400;

} // verus!
