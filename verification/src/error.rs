//! The ways in which an operation on a board can fail.

use vstd::prelude::*;

verus! {

/// Why an operation on a board did not succeed.
#[derive(Clone, Copy, Debug, PartialEq, Eq)]
pub enum SudokuError {
    /// The text is not 81 decimal digits.
    Parse,
    /// A row or a column is not in 0..9.
    Index,
    /// A step filled no cell though the grid is not complete.
    Stalled,
}

} // verus!
