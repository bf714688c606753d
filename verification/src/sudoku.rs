//! What a Sudoku board offers: its rows, columns and boxes, the validity and
//! completion checks, cell access, and the solver.

use vstd::prelude::*;
use crate::error::SudokuError;
use crate::grid::{
    WIDTH, HEIGHT, Grid, well_formed, cell, set_cell, row_of, col_of, box_of, box_index,
    grid_cols, grid_boxes,
};
use crate::rules::{
    rows_are_valid, cols_are_valid, boxes_are_valid, grid_valid, rows_are_complete,
    cols_are_complete, boxes_are_complete, grid_complete,
};
use crate::solver::{
    candidate_set, lists_ascending, step_grid, forced_cells, solve_grid, solve_steps,
};

verus! {

/// A board that holds a 9x9 grid, which is its view. The contracts are stated
/// over that grid; they hold of a board whose grid is well formed, and every
/// operation that changes the board keeps it so.
pub trait Sudoku: View<V = Grid> {
    /// The nine rows, top to bottom.
    fn rows(&self) -> (rows: Vec<Vec<i32>>)
        requires
            well_formed(self@),
        ensures
            rows.deep_view() == self@,
    ;

    /// The nine columns, left to right, each read top to bottom.
    fn cols(&self) -> (cols: Vec<Vec<i32>>)
        requires
            well_formed(self@),
        ensures
            cols.deep_view() == grid_cols(self@),
    ;

    /// The nine boxes in row-major order, each read row-major.
    fn squares(&self) -> (squares: Vec<Vec<i32>>)
        requires
            well_formed(self@),
        ensures
            squares.deep_view() == grid_boxes(self@),
    ;

    /// Row `i`.
    fn get_row(&self, i: usize) -> (row: Vec<i32>)
        requires
            well_formed(self@),
            i < HEIGHT,
        ensures
            row@ == row_of(self@, i as int),
    ;

    /// Column `j`.
    fn get_col(&self, j: usize) -> (col: Vec<i32>)
        requires
            well_formed(self@),
            j < WIDTH,
        ensures
            col@ == col_of(self@, j as int),
    ;

    /// The box that holds the cell in row `i`, column `j`.
    fn get_square(&self, i: usize, j: usize) -> (square: Vec<i32>)
        requires
            well_formed(self@),
            i < HEIGHT,
            j < WIDTH,
        ensures
            square@ == box_of(self@, box_index(i as int, j as int)),
    ;

    /// Whether no row holds a digit twice.
    fn rows_valid(&self) -> (valid: bool)
        requires
            well_formed(self@),
        ensures
            valid == rows_are_valid(self@),
    ;

    /// Whether no column holds a digit twice.
    fn cols_valid(&self) -> (valid: bool)
        requires
            well_formed(self@),
        ensures
            valid == cols_are_valid(self@),
    ;

    /// Whether no box holds a digit twice.
    fn squares_valid(&self) -> (valid: bool)
        requires
            well_formed(self@),
        ensures
            valid == boxes_are_valid(self@),
    ;

    /// Whether no row, column or box holds a digit twice.
    fn board_valid(&self) -> (valid: bool)
        requires
            well_formed(self@),
        ensures
            valid == grid_valid(self@),
    ;

    /// Whether every row is a permutation of 1..=9.
    fn rows_complete(&self) -> (complete: bool)
        requires
            well_formed(self@),
        ensures
            complete == rows_are_complete(self@),
    ;

    /// Whether every column is a permutation of 1..=9.
    fn cols_complete(&self) -> (complete: bool)
        requires
            well_formed(self@),
        ensures
            complete == cols_are_complete(self@),
    ;

    /// Whether every box is a permutation of 1..=9.
    fn squares_complete(&self) -> (complete: bool)
        requires
            well_formed(self@),
        ensures
            complete == boxes_are_complete(self@),
    ;

    /// Whether every row, column and box is a permutation of 1..=9.
    fn board_complete(&self) -> (complete: bool)
        requires
            well_formed(self@),
        ensures
            complete == grid_complete(self@),
    ;

    /// The value of the cell in row `i`, column `j`; an error where there is
    /// no such cell.
    fn get_value(&self, i: usize, j: usize) -> (value: Result<i32, SudokuError>)
        requires
            well_formed(self@),
        ensures
            i < HEIGHT && j < WIDTH ==> value == Ok::<i32, SudokuError>(
                cell(self@, i as int, j as int),
            ),
            !(i < HEIGHT && j < WIDTH) ==> value == Err::<i32, SudokuError>(SudokuError::Index),
    ;

    /// Writes `value` into the cell in row `i`, column `j`, and changes no
    /// other cell. Where there is no such cell, the board stays as it is and
    /// the error says so.
    fn set_value(&mut self, i: usize, j: usize, value: i32) -> (written: Result<(), SudokuError>)
        requires
            well_formed(old(self)@),
            0 <= value <= 9,
        ensures
            well_formed(final(self)@),
            i < HEIGHT && j < WIDTH ==> written == Ok::<(), SudokuError>(()) && final(self)@
                == set_cell(old(self)@, i as int, j as int, value),
            !(i < HEIGHT && j < WIDTH) ==> written == Err::<(), SudokuError>(SudokuError::Index)
                && final(self)@ == old(self)@,
    ;

    /// The candidates of every cell, indexed by row and then by column, each
    /// list in ascending order.
    fn possible_values(&self) -> (candidates: Vec<Vec<Vec<i32>>>)
        requires
            well_formed(self@),
        ensures
            candidates.len() == 9,
            forall|r: int| 0 <= r < 9 ==> (#[trigger] candidates[r]).len() == 9,
            forall|r: int, c: int|
                0 <= r < 9 && 0 <= c < 9 ==> lists_ascending(
                    (#[trigger] candidates[r][c])@,
                    candidate_set(self@, r, c),
                ),
    ;

    /// One solving step: fills every empty cell that has exactly one
    /// candidate on the board as it stands before the step, and returns how
    /// many cells it filled.
    fn solve_tick(&mut self) -> (filled: i32)
        requires
            well_formed(old(self)@),
        ensures
            well_formed(final(self)@),
            final(self)@ == step_grid(old(self)@),
            filled == forced_cells(old(self)@).len(),
    ;

    /// Takes steps until the board is complete, and returns how many it
    /// took. Where a step fills nothing on an incomplete board the solver has
    /// stalled: the board keeps what was filled so far and the error says so.
    fn solve(&mut self) -> (steps: Result<i32, SudokuError>)
        requires
            well_formed(old(self)@),
        ensures
            well_formed(final(self)@),
            final(self)@ == solve_grid(old(self)@),
            match steps {
                Ok(n) => grid_complete(final(self)@) && n == solve_steps(old(self)@),
                Err(e) => !grid_complete(final(self)@) && e == SudokuError::Stalled,
            },
    ;
}

} // verus!
