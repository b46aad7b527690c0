//! A Minesweeper board engine: mine placement, neighbour counts, flood reveal,
//! a flag budget and win/loss detection, with their contracts proved.

pub mod grid;
pub mod placement;
pub mod board;
pub mod display;

pub use board::{Board, BoardError, Cell, CellState, GameOutcome, RevealResult};
pub use display::display_digits;
