//! A 9x9 Sudoku grid with validity and completion checks and a solver that
//! fills the cells whose value is forced by their row, column and box.

pub mod error;
pub mod grid;
pub mod text;
pub mod segment;
pub mod rules;
pub mod solver;
pub mod sudoku;
pub mod board;

pub use board::Board;
pub use error::SudokuError;
pub use segment::{segment_complete, segment_valid, segments_complete, segments_valid};
pub use sudoku::Sudoku;
