//! The rules of the game, stated over a whole grid: when it is valid, when it
//! is complete, and how the two relate.

use vstd::prelude::*;
use crate::grid::{
    Grid, well_formed, cell, box_index, box_row, box_col, grid_rows, grid_cols, grid_boxes,
    empty_grid, lemma_box_position,
};
use crate::segment::{
    no_repeated_digit, is_permutation_of_digits, nine_distinct_digits, all_valid, all_complete,
    lemma_permutation_iff_distinct,
};

verus! {

/// No row holds a digit twice.
pub open spec fn rows_are_valid(g: Grid) -> bool {
    all_valid(grid_rows(g))
}

/// No column holds a digit twice.
pub open spec fn cols_are_valid(g: Grid) -> bool {
    all_valid(grid_cols(g))
}

/// No box holds a digit twice.
pub open spec fn boxes_are_valid(g: Grid) -> bool {
    all_valid(grid_boxes(g))
}

/// No row, column or box holds a digit twice.
pub open spec fn grid_valid(g: Grid) -> bool {
    rows_are_valid(g) && cols_are_valid(g) && boxes_are_valid(g)
}

/// Every row is a permutation of 1..=9.
pub open spec fn rows_are_complete(g: Grid) -> bool {
    all_complete(grid_rows(g))
}

/// Every column is a permutation of 1..=9.
pub open spec fn cols_are_complete(g: Grid) -> bool {
    all_complete(grid_cols(g))
}

/// Every box is a permutation of 1..=9.
pub open spec fn boxes_are_complete(g: Grid) -> bool {
    all_complete(grid_boxes(g))
}

/// Every row, column and box is a permutation of 1..=9.
pub open spec fn grid_complete(g: Grid) -> bool {
    rows_are_complete(g) && cols_are_complete(g) && boxes_are_complete(g)
}

/// No cell is empty.
pub open spec fn is_full(g: Grid) -> bool {
    forall|r: int, c: int| 0 <= r < 9 && 0 <= c < 9 ==> #[trigger] cell(g, r, c) != 0
}

/// Two cells share a row, a column or a box.
pub open spec fn same_unit(r1: int, c1: int, r2: int, c2: int) -> bool {
    r1 == r2 || c1 == c2 || box_index(r1, c1) == box_index(r2, c2)
}

/// The cells at (`r1`, `c1`) and (`r2`, `c2`) are two different cells of one
/// row, column or box, and hold the same digit.
pub open spec fn conflict(g: Grid, r1: int, c1: int, r2: int, c2: int) -> bool {
    &&& 0 <= r1 < 9 && 0 <= c1 < 9
    &&& 0 <= r2 < 9 && 0 <= c2 < 9
    &&& (r1 != r2 || c1 != c2)
    &&& same_unit(r1, c1, r2, c2)
    &&& cell(g, r1, c1) > 0
    &&& cell(g, r1, c1) == cell(g, r2, c2)
}

/// The empty grid is valid and not complete.
pub proof fn lemma_empty_grid_valid_not_complete()
    ensures
        well_formed(empty_grid()),
        grid_valid(empty_grid()),
        !grid_complete(empty_grid()),
{
    let g = empty_grid();
    assert forall|k: int| 0 <= k < 9 implies no_repeated_digit(#[trigger] grid_rows(g)[k]) by {}
    assert forall|k: int| 0 <= k < 9 implies no_repeated_digit(#[trigger] grid_cols(g)[k]) by {}
    assert forall|k: int| 0 <= k < 9 implies no_repeated_digit(#[trigger] grid_boxes(g)[k]) by {}
    assert(!grid_rows(g)[0].contains(1i32));
}

/// A digit that stands in two cells of one row, column or box makes the grid
/// invalid.
pub proof fn lemma_conflict_is_invalid(g: Grid, r1: int, c1: int, r2: int, c2: int)
    requires
        conflict(g, r1, c1, r2, c2),
    ensures
        !grid_valid(g),
{
    if r1 == r2 {
        let s = grid_rows(g)[r1];
        assert(!no_repeated_digit(s)) by {
            if c1 < c2 {
                assert(s[c1] == s[c2]);
            } else {
                assert(s[c2] == s[c1]);
            }
        }
    } else if c1 == c2 {
        let s = grid_cols(g)[c1];
        assert(!no_repeated_digit(s)) by {
            if r1 < r2 {
                assert(s[r1] == s[r2]);
            } else {
                assert(s[r2] == s[r1]);
            }
        }
    } else {
        let b = box_index(r1, c1);
        let k1 = (r1 % 3) * 3 + c1 % 3;
        let k2 = (r2 % 3) * 3 + c2 % 3;
        lemma_box_position(r1, c1);
        lemma_box_position(r2, c2);
        let s = grid_boxes(g)[b];
        assert(s[k1] == cell(g, r1, c1) && s[k2] == cell(g, r2, c2));
    }
}

/// A grid in which no digit stands in two cells of one row, column or box is
/// valid, however many of its cells are empty.
pub proof fn lemma_no_conflict_is_valid(g: Grid)
    requires
        forall|r1: int, c1: int, r2: int, c2: int| !conflict(g, r1, c1, r2, c2),
    ensures
        grid_valid(g),
{
    assert forall|r: int| 0 <= r < 9 implies no_repeated_digit(#[trigger] grid_rows(g)[r]) by {
        let s = grid_rows(g)[r];
        assert forall|i: int, j: int| 0 <= i < j < s.len() && s[i] > 0 implies s[i] != s[j] by {
            assert(!conflict(g, r, i, r, j));
        }
    }
    assert forall|c: int| 0 <= c < 9 implies no_repeated_digit(#[trigger] grid_cols(g)[c]) by {
        let s = grid_cols(g)[c];
        assert forall|i: int, j: int| 0 <= i < j < s.len() && s[i] > 0 implies s[i] != s[j] by {
            assert(!conflict(g, i, c, j, c));
        }
    }
    assert forall|b: int| 0 <= b < 9 implies no_repeated_digit(#[trigger] grid_boxes(g)[b]) by {
        let s = grid_boxes(g)[b];
        assert forall|i: int, j: int| 0 <= i < j < s.len() && s[i] > 0 implies s[i] != s[j] by {
            assert(!conflict(
                g,
                box_row(b, i),
                box_col(b, i),
                box_row(b, j),
                box_col(b, j),
            ));
        }
    }
}

/// A complete grid has no empty cell.
pub proof fn lemma_complete_is_full(g: Grid)
    requires
        grid_complete(g),
    ensures
        is_full(g),
{
    assert forall|r: int, c: int| 0 <= r < 9 && 0 <= c < 9 implies #[trigger] cell(g, r, c)
        != 0 by {
        let s = grid_rows(g)[r];
        lemma_permutation_iff_distinct(s);
        assert(s[c] == cell(g, r, c));
    }
}

/// A grid is complete exactly when none of its cells is empty and it is
/// valid: nine digits without a repeat are a permutation of 1..=9.
pub proof fn lemma_complete_iff_full_and_valid(g: Grid)
    requires
        well_formed(g),
    ensures
        grid_complete(g) <==> is_full(g) && grid_valid(g),
        grid_complete(g) <==> is_full(g) && rows_are_complete(g) && cols_are_complete(g)
            && boxes_are_complete(g),
{
    assert forall|k: int| 0 <= k < 9 implies (is_permutation_of_digits(
        #[trigger] grid_rows(g)[k],
    ) <==> nine_distinct_digits(grid_rows(g)[k])) by {
        lemma_permutation_iff_distinct(grid_rows(g)[k]);
    }
    assert forall|k: int| 0 <= k < 9 implies (is_permutation_of_digits(
        #[trigger] grid_cols(g)[k],
    ) <==> nine_distinct_digits(grid_cols(g)[k])) by {
        lemma_permutation_iff_distinct(grid_cols(g)[k]);
    }
    assert forall|k: int| 0 <= k < 9 implies (is_permutation_of_digits(
        #[trigger] grid_boxes(g)[k],
    ) <==> nine_distinct_digits(grid_boxes(g)[k])) by {
        lemma_permutation_iff_distinct(grid_boxes(g)[k]);
    }
    if grid_complete(g) {
        lemma_complete_is_full(g);
    }
    if is_full(g) && grid_valid(g) {
        assert forall|k: int| 0 <= k < 9 implies nine_distinct_digits(
            #[trigger] grid_rows(g)[k],
        ) by {}
        assert forall|k: int| 0 <= k < 9 implies nine_distinct_digits(
            #[trigger] grid_cols(g)[k],
        ) by {}
        assert forall|k: int| 0 <= k < 9 implies nine_distinct_digits(
            #[trigger] grid_boxes(g)[k],
        ) by {}
    }
}

} // verus!
