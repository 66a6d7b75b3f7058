//! A sliding-tile puzzle in the style of 2048: the board, its tiles, and the
//! rules by which a move slides and merges them.

pub mod board;
pub mod digits;
pub mod laws;
pub mod line;
pub mod model;
pub mod settings;
pub mod tile;
