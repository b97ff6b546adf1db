//! Incremental generation of perfect mazes on a rectangular grid.
//!
//! A maze is carved by a randomized depth-first backtracker that advances
//! one cell per step, so a driver can watch the maze grow.  The grid, the
//! per-cell wall state and the generator's stack discipline are all
//! specified and verified here; the random source is injected by the
//! caller.

pub mod cell;
pub mod generator;
pub mod grid;
pub mod paths;
pub mod rng;
