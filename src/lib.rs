//! Rectangular mazes: a wall grid, a randomized depth-first carver that turns
//! it into a spanning tree, and an A* solver between two opposite corners.
use vstd::prelude::*;

pub mod counting;
pub mod carve;
pub mod export;
pub mod grid;
pub mod model;
pub mod solver;
pub mod source;
pub mod walks;

pub use grid::Maze;
