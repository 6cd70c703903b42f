//! A rectangular maze library: a grid of cells with four wall flags each,
//! a randomized depth-first generator (with an optional loop-adding pass),
//! and two pathfinders (breadth-first and depth-first) that report the
//! route found together with the full exploration order.

pub mod cell;
pub mod counting;
pub mod direction;
pub mod generate;
pub mod maze;
mod rng;
pub mod route;
pub mod search;

pub use cell::Cell;
pub use direction::Dir;
pub use maze::{Maze, MazeError, MazeView};
pub use search::{Algorithm, SearchResult};
