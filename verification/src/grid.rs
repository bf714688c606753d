//! The mathematical model of a Sudoku grid.
//!
//! A grid is a sequence of nine rows of nine cells. A cell holds `0` when it
//! is empty and a digit from 1 to 9 otherwise. Everything the executable code
//! promises is stated over the spec functions of this module.

use vstd::prelude::*;

verus! {

/// The number of cells in a row.
pub const WIDTH: usize = 9;

/// The number of cells in a column.
pub const HEIGHT: usize = 9;

/// The number of cells along each side of a box.
pub const SQUARE_SIZE: usize = 3;

/// The abstract value of a board: its rows, top to bottom.
pub type Grid = Seq<Seq<i32>>;

/// The value of the cell in row `r`, column `c`.
pub open spec fn cell(g: Grid, r: int, c: int) -> i32 {
    g[r][c]
}

/// A grid is well formed when it is 9x9 and every cell holds 0..=9.
pub open spec fn well_formed(g: Grid) -> bool {
    &&& g.len() == HEIGHT
    &&& forall|r: int| 0 <= r < HEIGHT ==> (#[trigger] g[r]).len() == WIDTH
    &&& forall|r: int, c: int|
        0 <= r < HEIGHT && 0 <= c < WIDTH ==> 0 <= #[trigger] cell(g, r, c) <= 9
}

/// The grid with every cell empty.
pub open spec fn empty_grid() -> Grid {
    Seq::new(HEIGHT as nat, |r: int| Seq::new(WIDTH as nat, |c: int| 0i32))
}

/// The grid `g` with the cell at (`r`, `c`) replaced by `v`.
pub open spec fn set_cell(g: Grid, r: int, c: int, v: i32) -> Grid {
    g.update(r, g[r].update(c, v))
}

/// Row `r`, left to right.
pub open spec fn row_of(g: Grid, r: int) -> Seq<i32> {
    Seq::new(WIDTH as nat, |c: int| cell(g, r, c))
}

/// Column `c`, top to bottom.
pub open spec fn col_of(g: Grid, c: int) -> Seq<i32> {
    Seq::new(HEIGHT as nat, |r: int| cell(g, r, c))
}

/// The number of the box that holds the cell at (`r`, `c`). Boxes are
/// numbered row-major: 0, 1, 2 across the top, 6, 7, 8 across the bottom.
pub open spec fn box_index(r: int, c: int) -> int {
    (r / SQUARE_SIZE as int) * SQUARE_SIZE + c / SQUARE_SIZE as int
}

/// The row of the `k`-th cell of box `b`.
pub open spec fn box_row(b: int, k: int) -> int {
    (b / SQUARE_SIZE as int) * SQUARE_SIZE + k / SQUARE_SIZE as int
}

/// The column of the `k`-th cell of box `b`.
pub open spec fn box_col(b: int, k: int) -> int {
    (b % SQUARE_SIZE as int) * SQUARE_SIZE + k % SQUARE_SIZE as int
}

/// Box `b`, read row-major within the box.
pub open spec fn box_of(g: Grid, b: int) -> Seq<i32> {
    Seq::new((SQUARE_SIZE * SQUARE_SIZE) as nat, |k: int| cell(g, box_row(b, k), box_col(b, k)))
}

/// The nine rows, in row order.
pub open spec fn grid_rows(g: Grid) -> Seq<Seq<i32>> {
    Seq::new(HEIGHT as nat, |r: int| row_of(g, r))
}

/// The nine columns, in column order.
pub open spec fn grid_cols(g: Grid) -> Seq<Seq<i32>> {
    Seq::new(WIDTH as nat, |c: int| col_of(g, c))
}

/// The nine boxes, in row-major box order.
pub open spec fn grid_boxes(g: Grid) -> Seq<Seq<i32>> {
    Seq::new(9, |b: int| box_of(g, b))
}

/// The rows of a well-formed grid are the grid itself.
pub proof fn lemma_rows_are_grid(g: Grid)
    requires
        well_formed(g),
    ensures
        grid_rows(g) == g,
{
    assert forall|r: int| 0 <= r < 9 implies #[trigger] grid_rows(g)[r] == g[r] by {}
}

/// Writing a digit into a cell of the empty grid gives a grid that holds the
/// digit in that cell and is empty everywhere else.
pub proof fn lemma_set_cell_of_empty_grid(r: int, c: int, v: i32)
    requires
        0 <= r < 9,
        0 <= c < 9,
        1 <= v <= 9,
    ensures
        well_formed(set_cell(empty_grid(), r, c, v)),
        cell(set_cell(empty_grid(), r, c, v), r, c) == v,
        forall|r2: int, c2: int|
            0 <= r2 < 9 && 0 <= c2 < 9 && (r2 != r || c2 != c) ==> #[trigger] cell(
                set_cell(empty_grid(), r, c, v),
                r2,
                c2,
            ) == 0,
{
    assert forall|r2: int, c2: int|
        0 <= r2 < 9 && 0 <= c2 < 9 && (r2 != r || c2 != c) implies #[trigger] cell(
        set_cell(empty_grid(), r, c, v),
        r2,
        c2,
    ) == 0 by {}
}

/// Writing a value in 0..=9 into a cell of a well-formed grid changes that
/// cell and no other, and leaves the grid well formed.
pub proof fn lemma_set_cell(g: Grid, r: int, c: int, v: i32)
    requires
        well_formed(g),
        0 <= r < 9,
        0 <= c < 9,
        0 <= v <= 9,
    ensures
        well_formed(set_cell(g, r, c, v)),
        cell(set_cell(g, r, c, v), r, c) == v,
        forall|r2: int, c2: int|
            0 <= r2 < 9 && 0 <= c2 < 9 && (r2 != r || c2 != c) ==> #[trigger] cell(
                set_cell(g, r, c, v),
                r2,
                c2,
            ) == cell(g, r2, c2),
{
    let h = set_cell(g, r, c, v);
    assert forall|r2: int, c2: int| 0 <= r2 < 9 && 0 <= c2 < 9 implies 0 <= #[trigger] cell(
        h,
        r2,
        c2,
    ) <= 9 by {
        assert(0 <= cell(g, r2, c2) <= 9);
    }
}

/// Every cell lies in the box that `box_index` names, at the position that
/// `box_row` and `box_col` invert.
pub proof fn lemma_box_position(r: int, c: int)
    requires
        0 <= r < 9,
        0 <= c < 9,
    ensures
        0 <= box_index(r, c) < 9,
        0 <= (r % 3) * 3 + c % 3 < 9,
        box_row(box_index(r, c), (r % 3) * 3 + c % 3) == r,
        box_col(box_index(r, c), (r % 3) * 3 + c % 3) == c,
{
}

/// Every position of every box names a cell of the grid, in that box: with
/// `lemma_box_position`, the nine boxes tile the grid.
pub proof fn lemma_box_cell(b: int, k: int)
    requires
        0 <= b < 9,
        0 <= k < 9,
    ensures
        0 <= box_row(b, k) < 9,
        0 <= box_col(b, k) < 9,
        box_index(box_row(b, k), box_col(b, k)) == b,
        (box_row(b, k) % 3) * 3 + box_col(b, k) % 3 == k,
{
}

} // verus!
