//! Conway's Game of Life on an unbounded integer plane, with a dense
//! square index for displaying a bounded region of it.

pub mod box_boundary;
pub mod game;
pub mod grid;
pub mod node;
