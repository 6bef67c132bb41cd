//! Conway's Game of Life on an unbounded plane of signed 64-bit coordinates,
//! held sparsely: only live cells are stored.

pub mod coord;
pub mod counters;
pub mod engine;
pub mod format;
pub mod grid;
pub mod laws;
pub mod life;
pub mod rules;
pub mod simulation;
pub mod survey;
