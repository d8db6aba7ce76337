//! Mazes on a rectangular grid: a wall store, reachability by flood fill,
//! two generators and a breadth-first solver, each with a proved contract.

pub mod grid;
pub mod model;
pub mod maze;
pub mod explore;
pub mod search;
pub mod path;
pub mod generate;
pub mod laws;

pub use crate::generate::candidate_walls;
pub use crate::grid::{key_of_cell, key_of_wall, Cell, Direction, Draw, Wall};
pub use crate::maze::Maze;
