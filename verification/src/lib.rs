//! In-memory warehouse capacity tracker over a fixed four-dimensional grid
//! (row, shelf, level, zone).
//!
//! The crate decides where incoming items may be placed, subject to
//! per-quality constraints, commits placements atomically, reverses
//! multi-cell placements as a unit, and answers grouped queries over the
//! committed state.

pub mod allocation_strategies;
pub mod error;
pub mod item;
pub mod location;
pub mod utils;
pub mod warehouse;
