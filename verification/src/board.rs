//! The board: a 9x9 grid of cells held as nine rows of nine values.

use vstd::prelude::*;
use vstd::string::{StrSliceExecFns, StringExecFns};
use crate::error::SudokuError;
use crate::grid::{
    WIDTH, HEIGHT, SQUARE_SIZE, Grid, well_formed, cell, set_cell, empty_grid, row_of, col_of,
    box_of, lemma_rows_are_grid, lemma_set_cell,
};
use crate::text::{
    is_digit, is_digit_string, grid_of_digits, digits_of_grid, shown_char, shown_text, digit_text,
    lemma_text_round_trip,
};
use crate::segment::{segments_valid, segments_complete, free_digits};
use crate::solver::{
    empty_cells, step_grid_upto, forced_cells_upto, solve_grid, solve_steps, candidate_set,
    lists_ascending, lemma_cell_sets, lemma_listing, lemma_forced_digit, lemma_step_start,
    lemma_step_visit, lemma_step_end, lemma_step_fills_forced_cells,
    lemma_step_without_forced_cell,
};
use crate::sudoku::Sudoku;

verus! {

/// A Sudoku board. Its cells can be read by every caller and are written
/// through `set_value` and the solver alone, so a board made by `new` or
/// `from_string` is a well-formed grid for as long as it lives.
#[derive(Debug)]
pub struct Board {
    board: Vec<Vec<i32>>,
}

impl View for Board {
    type V = Grid;

    closed spec fn view(&self) -> Grid {
        self.board.deep_view()
    }
}

/// The grid that nine vectors of nine values stand for, cell by cell.
proof fn lemma_nested(v: Vec<Vec<i32>>)
    ensures
        v.deep_view().len() == v.len(),
        forall|r: int| 0 <= r < v.len() ==> #[trigger] v.deep_view()[r] == v[r]@,
{
}

impl Board {
    /// The board with every cell empty.
    pub fn new() -> (board: Board)
        ensures
            board@ == empty_grid(),
            well_formed(board@),
    {
        let mut rows: Vec<Vec<i32>> = Vec::new();
        let mut r: usize = 0;
        while r < HEIGHT
            invariant
                r <= HEIGHT,
                rows.len() == r,
                forall|a: int| 0 <= a < r ==> (#[trigger] rows[a])@ == Seq::new(9, |c: int| 0i32),
            decreases HEIGHT - r,
        {
            let mut row: Vec<i32> = Vec::new();
            let mut c: usize = 0;
            while c < WIDTH
                invariant
                    c <= WIDTH,
                    row.len() == c,
                    forall|b: int| 0 <= b < c ==> row[b] == 0,
                decreases WIDTH - c,
            {
                row.push(0);
                c += 1;
            }
            rows.push(row);
            r += 1;
        }
        proof {
            lemma_nested(rows);
        }
        Board { board: rows }
    }

    /// Reads a board from its text form: 81 decimal digits, row by row, `0`
    /// for an empty cell. Any other text is refused. The cells of the board
    /// that is read, written out row by row, give the text back.
    pub fn from_string(board_string: &str) -> (parsed: Result<Board, SudokuError>)
        ensures
            match parsed {
                Ok(board) => is_digit_string(board_string@) && well_formed(board@) && board@
                    == grid_of_digits(board_string@) && digits_of_grid(board@) == board_string@,
                Err(e) => !is_digit_string(board_string@) && e == SudokuError::Parse,
            },
    {
        if board_string.unicode_len() != WIDTH * HEIGHT {
            return Err(SudokuError::Parse);
        }
        let mut rows: Vec<Vec<i32>> = Vec::new();
        let mut r: usize = 0;
        while r < HEIGHT
            invariant
                r <= HEIGHT,
                board_string@.len() == 81,
                rows.len() == r,
                forall|k: int| 0 <= k < r * 9 ==> is_digit(#[trigger] board_string@[k]),
                forall|a: int|
                    0 <= a < r ==> (#[trigger] rows[a])@ == grid_of_digits(board_string@)[a],
            decreases HEIGHT - r,
        {
            let mut row: Vec<i32> = Vec::new();
            let mut c: usize = 0;
            while c < WIDTH
                invariant
                    r < HEIGHT,
                    c <= WIDTH,
                    board_string@.len() == 81,
                    row.len() == c,
                    forall|k: int| 0 <= k < r * 9 + c ==> is_digit(#[trigger] board_string@[k]),
                    forall|b: int|
                        0 <= b < c ==> row[b] == grid_of_digits(board_string@)[r as int][b],
                decreases WIDTH - c,
            {
                let character = board_string.get_char(r * WIDTH + c);
                if !(character >= '0' && character <= '9') {
                    return Err(SudokuError::Parse);
                }
                row.push((character as u32 - '0' as u32) as i32);
                c += 1;
            }
            rows.push(row);
            r += 1;
        }
        proof {
            lemma_nested(rows);
            lemma_text_round_trip(board_string@);
        }
        Ok(Board { board: rows })
    }
}

impl Board {
    /// The board as text: nine lines, the nine digits of a row on each, with
    /// a space between two digits.
    pub fn to_string(&self) -> (text: String)
        requires
            well_formed(self@),
        ensures
            text@ == shown_text(self@),
    {
        let mut text = String::new();
        let mut r: usize = 0;
        while r < HEIGHT
            invariant
                well_formed(self@),
                r <= HEIGHT,
                text@.len() == (if r == 9 { 161 } else { r * 18 }),
                forall|k: int| 0 <= k < text@.len() ==> text@[k] == shown_char(self@, k),
            decreases HEIGHT - r,
        {
            let mut c: usize = 0;
            while c < WIDTH
                invariant
                    well_formed(self@),
                    r < HEIGHT,
                    c <= WIDTH,
                    text@.len() == (if r == 8 && c == 9 { 161 } else { r * 18 + c * 2 }),
                    forall|k: int| 0 <= k < text@.len() ==> text@[k] == shown_char(self@, k),
                decreases WIDTH - c,
            {
                assert(self@[r as int][c as int] == cell(self@, r as int, c as int));
                text.append(digit_text(self.board[r][c]));
                if c + 1 < WIDTH {
                    text.append(" ");
                    proof {
                        reveal_strlit(" ");
                    }
                } else if r + 1 < HEIGHT {
                    text.append("\n");
                    proof {
                        reveal_strlit("\n");
                    }
                }
                c += 1;
            }
            r += 1;
        }
        text
    }

    /// Box `b`, read row-major.
    fn square_at(&self, b: usize) -> (square: Vec<i32>)
        requires
            well_formed(self@),
            b < 9,
        ensures
            square@ == box_of(self@, b as int),
    {
        let mut square: Vec<i32> = Vec::new();
        let mut k: usize = 0;
        while k < SQUARE_SIZE * SQUARE_SIZE
            invariant
                well_formed(self@),
                self@ == self.board.deep_view(),
                b < 9,
                k <= SQUARE_SIZE * SQUARE_SIZE,
                square.len() == k,
                forall|a: int| 0 <= a < k ==> square[a] == box_of(self@, b as int)[a],
            decreases SQUARE_SIZE * SQUARE_SIZE - k,
        {
            let i = (b / SQUARE_SIZE) * SQUARE_SIZE + k / SQUARE_SIZE;
            let j = (b % SQUARE_SIZE) * SQUARE_SIZE + k % SQUARE_SIZE;
            assert(self@[i as int].len() == 9);
            square.push(self.board[i][j]);
            k += 1;
        }
        square
    }

    /// Writes `value` into the cell in row `i`, column `j`.
    fn put(&mut self, i: usize, j: usize, value: i32)
        requires
            well_formed(old(self)@),
            i < HEIGHT,
            j < WIDTH,
            0 <= value <= 9,
        ensures
            well_formed(final(self)@),
            final(self)@ == set_cell(old(self)@, i as int, j as int, value),
    {
        assert(self@[i as int].len() == 9);
        let ghost before = self.board;
        self.board[i][j] = value;
        proof {
            lemma_nested(before);
            lemma_nested(self.board);
            lemma_set_cell(old(self)@, i as int, j as int, value);
            assert(self@ =~= set_cell(old(self)@, i as int, j as int, value));
        }
    }
}

impl Sudoku for Board {
    fn rows(&self) -> (rows: Vec<Vec<i32>>) {
        self.board.clone()
    }

    fn cols(&self) -> (cols: Vec<Vec<i32>>) {
        let mut cols: Vec<Vec<i32>> = Vec::new();
        let mut j: usize = 0;
        while j < WIDTH
            invariant
                well_formed(self@),
                j <= WIDTH,
                cols.len() == j,
                forall|a: int| 0 <= a < j ==> (#[trigger] cols[a])@ == col_of(self@, a),
            decreases WIDTH - j,
        {
            let col = self.get_col(j);
            cols.push(col);
            j += 1;
        }
        proof {
            lemma_nested(cols);
        }
        cols
    }

    fn squares(&self) -> (squares: Vec<Vec<i32>>) {
        let mut squares: Vec<Vec<i32>> = Vec::new();
        let mut b: usize = 0;
        while b < 9
            invariant
                well_formed(self@),
                b <= 9,
                squares.len() == b,
                forall|a: int| 0 <= a < b ==> (#[trigger] squares[a])@ == box_of(self@, a),
            decreases 9 - b,
        {
            let square = self.square_at(b);
            squares.push(square);
            b += 1;
        }
        proof {
            lemma_nested(squares);
        }
        squares
    }

    fn get_row(&self, i: usize) -> (row: Vec<i32>) {
        assert(self@[i as int] =~= row_of(self@, i as int));
        self.board[i].clone()
    }

    fn get_col(&self, j: usize) -> (col: Vec<i32>) {
        let mut col: Vec<i32> = Vec::new();
        let mut i: usize = 0;
        while i < HEIGHT
            invariant
                well_formed(self@),
                j < WIDTH,
                i <= HEIGHT,
                col.len() == i,
                forall|a: int| 0 <= a < i ==> col[a] == cell(self@, a, j as int),
            decreases HEIGHT - i,
        {
            assert(self@[i as int].len() == 9);
            col.push(self.board[i][j]);
            i += 1;
        }
        col
    }

    fn get_square(&self, i: usize, j: usize) -> (square: Vec<i32>) {
        self.square_at((i / SQUARE_SIZE) * SQUARE_SIZE + j / SQUARE_SIZE)
    }

    fn rows_valid(&self) -> (valid: bool) {
        proof {
            lemma_rows_are_grid(self@);
        }
        segments_valid(self.rows())
    }

    fn cols_valid(&self) -> (valid: bool) {
        segments_valid(self.cols())
    }

    fn squares_valid(&self) -> (valid: bool) {
        segments_valid(self.squares())
    }

    fn board_valid(&self) -> (valid: bool) {
        self.rows_valid() && self.cols_valid() && self.squares_valid()
    }

    fn rows_complete(&self) -> (complete: bool) {
        proof {
            lemma_rows_are_grid(self@);
        }
        segments_complete(self.rows())
    }

    fn cols_complete(&self) -> (complete: bool) {
        segments_complete(self.cols())
    }

    fn squares_complete(&self) -> (complete: bool) {
        segments_complete(self.squares())
    }

    fn board_complete(&self) -> (complete: bool) {
        self.rows_complete() && self.cols_complete() && self.squares_complete()
    }

    fn get_value(&self, i: usize, j: usize) -> (value: Result<i32, SudokuError>) {
        if i < HEIGHT && j < WIDTH {
            assert(self@[i as int].len() == 9);
            Ok(self.board[i][j])
        } else {
            Err(SudokuError::Index)
        }
    }

    fn set_value(&mut self, i: usize, j: usize, value: i32) -> (written: Result<(), SudokuError>) {
        if i < HEIGHT && j < WIDTH {
            self.put(i, j, value);
            Ok(())
        } else {
            Err(SudokuError::Index)
        }
    }

    fn possible_values(&self) -> (candidates: Vec<Vec<Vec<i32>>>) {
        let mut candidates: Vec<Vec<Vec<i32>>> = Vec::new();
        let mut i: usize = 0;
        while i < HEIGHT
            invariant
                well_formed(self@),
                i <= HEIGHT,
                candidates.len() == i,
                forall|r: int| 0 <= r < i ==> (#[trigger] candidates[r]).len() == 9,
                forall|r: int, c: int|
                    0 <= r < i && 0 <= c < 9 ==> lists_ascending(
                        (#[trigger] candidates[r][c])@,
                        candidate_set(self@, r, c),
                    ),
            decreases HEIGHT - i,
        {
            let row = self.get_row(i);
            let mut line: Vec<Vec<i32>> = Vec::new();
            let mut j: usize = 0;
            while j < WIDTH
                invariant
                    well_formed(self@),
                    i < HEIGHT,
                    j <= WIDTH,
                    row@ == row_of(self@, i as int),
                    line.len() == j,
                    forall|c: int|
                        0 <= c < j ==> lists_ascending(
                            (#[trigger] line[c])@,
                            candidate_set(self@, i as int, c),
                        ),
                decreases WIDTH - j,
            {
                let value = row[j];
                let mut list: Vec<i32> = Vec::new();
                if value > 0 {
                    list.push(value);
                    assert(list@[0] == value);
                } else {
                    let col = self.get_col(j);
                    let square = self.get_square(i, j);
                    list = free_digits(&row, &col, &square);
                }
                line.push(list);
                j += 1;
            }
            candidates.push(line);
            i += 1;
        }
        candidates
    }

    fn solve_tick(&mut self) -> (filled: i32) {
        let candidates = self.possible_values();
        let ghost before = self@;
        let mut filled: i32 = 0;
        let mut i: usize = 0;
        proof {
            lemma_step_start(before);
        }
        while i < HEIGHT
            invariant
                well_formed(before),
                well_formed(self@),
                i <= HEIGHT,
                candidates.len() == 9,
                forall|r: int| 0 <= r < 9 ==> (#[trigger] candidates[r]).len() == 9,
                forall|r: int, c: int|
                    0 <= r < 9 && 0 <= c < 9 ==> lists_ascending(
                        (#[trigger] candidates[r][c])@,
                        candidate_set(before, r, c),
                    ),
                self@ == step_grid_upto(before, i * 9),
                filled == forced_cells_upto(before, i * 9).len(),
                0 <= filled <= i * 9,
            decreases HEIGHT - i,
        {
            let mut j: usize = 0;
            while j < WIDTH
                invariant
                    well_formed(before),
                    well_formed(self@),
                    i < HEIGHT,
                    j <= WIDTH,
                    candidates.len() == 9,
                    forall|r: int| 0 <= r < 9 ==> (#[trigger] candidates[r]).len() == 9,
                    forall|r: int, c: int|
                        0 <= r < 9 && 0 <= c < 9 ==> lists_ascending(
                            (#[trigger] candidates[r][c])@,
                            candidate_set(before, r, c),
                        ),
                    self@ == step_grid_upto(before, i * 9 + j),
                    filled == forced_cells_upto(before, i * 9 + j).len(),
                    0 <= filled <= i * 9 + j,
                decreases WIDTH - j,
            {
                proof {
                    lemma_step_visit(before, i as int, j as int);
                    lemma_listing(
                        candidates[i as int][j as int]@,
                        candidate_set(before, i as int, j as int),
                    );
                }
                if candidates[i][j].len() == 1 && self.board[i][j] == 0 {
                    let digit = candidates[i][j][0];
                    proof {
                        lemma_forced_digit(before, i as int, j as int);
                    }
                    self.put(i, j, digit);
                    filled += 1;
                }
                j += 1;
            }
            i += 1;
        }
        proof {
            lemma_step_end(before);
        }
        filled
    }

    fn solve(&mut self) -> (steps: Result<i32, SudokuError>) {
        let ghost start = self@;
        let mut taken: i32 = 0;
        proof {
            lemma_cell_sets(start);
        }
        while !self.board_complete()
            invariant
                start == old(self)@,
                well_formed(self@),
                solve_grid(self@) == solve_grid(start),
                taken + solve_steps(self@) == solve_steps(start),
                0 <= taken,
                taken + empty_cells(self@).len() <= 81,
            decreases empty_cells(self@).len(),
        {
            let ghost current = self@;
            let filled = self.solve_tick();
            proof {
                lemma_step_fills_forced_cells(current);
            }
            taken += 1;
            if filled == 0 {
                proof {
                    lemma_step_without_forced_cell(current);
                }
                return Err(SudokuError::Stalled);
            }
        }
        Ok(taken)
    }
}

} // verus!
