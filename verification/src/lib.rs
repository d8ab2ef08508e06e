use vstd::prelude::*;

pub mod config;
pub mod grid;
pub mod maze;
mod rng;
pub mod room;

pub use config::MazeConfig;
pub use grid::Cell;
pub use maze::Maze;
pub use maze::MazeError;
pub use room::Room;

verus! {

} // verus!
