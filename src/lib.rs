//! Mechanics engine of a sliding-tile merge puzzle: board state, directional
//! slide-and-merge moves, per-tile timed animations, tile spawning and score.
//!
//! Time is counted in integer time units and geometry in integer pixels; the
//! host chooses what a unit stands for.

mod board;
mod digits;
mod grid;
mod merge;
mod settings;
mod settle;
mod tile;

pub use board::{Board, BoardView};
pub use digits::number_to_digits;
pub use merge::Direction;
pub use settings::Settings;
pub use tile::{Tile, TileState};
