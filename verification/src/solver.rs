//! The solver, as mathematics: the candidates of a cell, the cells whose
//! value is forced, one solving step, and the run of steps that `solve`
//! makes.
//!
//! A step reads every candidate set off the grid as it stands before the
//! step and fills each empty cell whose set has exactly one member. The order
//! in which the cells are visited therefore plays no part.

use vstd::prelude::*;
use vstd::set_lib::{set_int_range, lemma_int_range, lemma_map_size, lemma_len_subset};
use crate::grid::{Grid, well_formed, cell, set_cell, row_of, col_of, box_of, box_index};
use crate::rules::{grid_complete, is_full, lemma_complete_is_full};
use crate::segment::digits;

verus! {

/// The digit `d` stands neither in the row, nor in the column, nor in the box
/// of the cell at (`r`, `c`).
pub open spec fn digit_allowed(g: Grid, r: int, c: int, d: i32) -> bool {
    &&& 1 <= d <= 9
    &&& !row_of(g, r).contains(d)
    &&& !col_of(g, c).contains(d)
    &&& !box_of(g, box_index(r, c)).contains(d)
}

/// The candidate set of the cell at (`r`, `c`): for a filled cell its value
/// alone, for an empty cell the digits that its row, column and box leave
/// free.
pub open spec fn candidate_set(g: Grid, r: int, c: int) -> Set<i32> {
    if cell(g, r, c) > 0 {
        set![cell(g, r, c)]
    } else {
        Set::new(|d: i32| digit_allowed(g, r, c, d))
    }
}

/// `v` lists the members of `s` in ascending order, each once.
pub open spec fn lists_ascending(v: Seq<i32>, s: Set<i32>) -> bool {
    &&& forall|i: int, j: int| 0 <= i < j < v.len() ==> v[i] < v[j]
    &&& forall|d: i32|
        #![trigger v.contains(d)]
        #![trigger s.contains(d)]
        v.contains(d) <==> s.contains(d)
}

/// The cell at (`r`, `c`) is empty and exactly one digit is a candidate for
/// it.
pub open spec fn is_forced(g: Grid, r: int, c: int) -> bool {
    cell(g, r, c) == 0 && candidate_set(g, r, c).len() == 1
}

/// What one step leaves in the cell at (`r`, `c`): the one candidate where
/// the cell is forced, and what was there before where it is not.
pub open spec fn step_cell(g: Grid, r: int, c: int) -> i32 {
    if is_forced(g, r, c) {
        candidate_set(g, r, c).choose()
    } else {
        cell(g, r, c)
    }
}

/// The grid after one step on `g`.
pub open spec fn step_grid(g: Grid) -> Grid {
    Seq::new(9, |r: int| Seq::new(9, |c: int| step_cell(g, r, c)))
}

/// The 81 positions of a grid, as (row, column).
pub open spec fn all_cells() -> Set<(int, int)> {
    Set::new(|p: (int, int)| 0 <= p.0 < 9 && 0 <= p.1 < 9)
}

/// The positions of the cells that one step on `g` fills.
pub open spec fn forced_cells(g: Grid) -> Set<(int, int)> {
    Set::new(|p: (int, int)| 0 <= p.0 < 9 && 0 <= p.1 < 9 && is_forced(g, p.0, p.1))
}

/// The positions of the empty cells of `g`.
pub open spec fn empty_cells(g: Grid) -> Set<(int, int)> {
    Set::new(|p: (int, int)| 0 <= p.0 < 9 && 0 <= p.1 < 9 && cell(g, p.0, p.1) == 0)
}

/// The grid that `solve` leaves: steps are taken until the grid is complete
/// or a step fills nothing.
pub open spec fn solve_grid(g: Grid) -> Grid
    decreases empty_cells(g).len(),
    via solve_grid_decreases
{
    if grid_complete(g) || forced_cells(g).len() == 0 {
        g
    } else {
        solve_grid(step_grid(g))
    }
}

/// The number of steps that `solve` takes from `g`, the last one included
/// where it fills nothing.
pub open spec fn solve_steps(g: Grid) -> nat
    decreases empty_cells(g).len(),
    via solve_steps_decreases
{
    if grid_complete(g) {
        0
    } else if forced_cells(g).len() == 0 {
        1
    } else {
        1 + solve_steps(step_grid(g))
    }
}

/// The grid after `n` steps on `g`.
pub open spec fn step_times(g: Grid, n: nat) -> Grid
    decreases n,
{
    if n == 0 {
        g
    } else {
        step_times(step_grid(g), (n - 1) as nat)
    }
}

#[via_fn]
proof fn solve_grid_decreases(g: Grid) {
    if !(grid_complete(g) || forced_cells(g).len() == 0) {
        lemma_step_fills_forced_cells(g);
    }
}

#[via_fn]
proof fn solve_steps_decreases(g: Grid) {
    if !grid_complete(g) && forced_cells(g).len() != 0 {
        lemma_step_fills_forced_cells(g);
    }
}

/// There are 81 positions.
pub proof fn lemma_all_cells()
    ensures
        all_cells().finite(),
        all_cells().len() == 81,
{
    let indices = set_int_range(0, 81);
    let position = |k: int| (k / 9, k % 9);
    lemma_int_range(0, 81);
    assert forall|p: (int, int)| all_cells().contains(p) implies indices.map(position).contains(
        p,
    ) by {
        let k = p.0 * 9 + p.1;
        assert(indices.contains(k) && position(k) == p);
    }
    assert(indices.map(position) =~= all_cells());
    lemma_map_size(indices, all_cells(), position);
}

/// The empty cells and the forced cells are finitely many, at most 81, and
/// every forced cell is empty.
pub proof fn lemma_cell_sets(g: Grid)
    ensures
        empty_cells(g).finite(),
        forced_cells(g).finite(),
        forced_cells(g).subset_of(empty_cells(g)),
        forced_cells(g).len() <= empty_cells(g).len() <= 81,
{
    lemma_all_cells();
    lemma_len_subset(empty_cells(g), all_cells());
    lemma_len_subset(forced_cells(g), empty_cells(g));
}

/// A candidate set is finite.
pub proof fn lemma_candidate_set_finite(g: Grid, r: int, c: int)
    ensures
        candidate_set(g, r, c).finite(),
{
    if cell(g, r, c) <= 0 {
        let nine: Set<i32> = set![1i32, 2i32, 3i32, 4i32, 5i32, 6i32, 7i32, 8i32, 9i32];
        assert(nine =~= digits());
        lemma_len_subset(candidate_set(g, r, c), digits());
    }
}

/// A list that holds the members of a set in ascending order is as long as
/// the set is large; where it holds one value, the set holds that value and
/// no other.
pub proof fn lemma_listing(v: Seq<i32>, s: Set<i32>)
    requires
        lists_ascending(v, s),
    ensures
        s.finite(),
        s.len() == v.len(),
        v.len() == 1 ==> s.choose() == v[0],
{
    assert(v.to_set() =~= s);
    v.unique_seq_to_set();
    if v.len() == 1 {
        assert(v.contains(s.choose()));
    }
}

/// Two lists that hold the members of one set in ascending order are equal:
/// the candidate set of a cell determines its list of candidates.
pub proof fn lemma_listing_unique(v: Seq<i32>, w: Seq<i32>, s: Set<i32>)
    requires
        lists_ascending(v, s),
        lists_ascending(w, s),
    ensures
        v == w,
    decreases v.len(),
{
    lemma_listing(v, s);
    lemma_listing(w, s);
    if v.len() > 0 {
        let a = v.last();
        let b = w.last();
        assert(w.contains(a) && v.contains(b));
        let s2 = s.remove(a);
        assert forall|d: i32| v.drop_last().contains(d) <==> s2.contains(d) by {
            if s2.contains(d) {
                let k = choose|k: int| 0 <= k < v.len() && v[k] == d;
                assert(v.drop_last()[k] == d);
            }
        }
        assert forall|d: i32| w.drop_last().contains(d) <==> s2.contains(d) by {
            if s2.contains(d) {
                let k = choose|k: int| 0 <= k < w.len() && w[k] == d;
                assert(w.drop_last()[k] == d);
            }
        }
        lemma_listing_unique(v.drop_last(), w.drop_last(), s2);
        assert(w =~= w.drop_last().push(b));
    }
}

/// A step writes a digit from 1 to 9 into a forced cell, and that digit is
/// the cell's one candidate.
pub proof fn lemma_forced_digit(g: Grid, r: int, c: int)
    requires
        is_forced(g, r, c),
    ensures
        digit_allowed(g, r, c, step_cell(g, r, c)),
        1 <= step_cell(g, r, c) <= 9,
        candidate_set(g, r, c) == set![step_cell(g, r, c)],
{
    let s = candidate_set(g, r, c);
    lemma_candidate_set_finite(g, r, c);
    assert(s.remove(s.choose()).len() == 0);
}

/// A step leaves a well-formed grid well formed, changes no filled cell, and
/// fills exactly the forced cells.
pub proof fn lemma_step_grid(g: Grid)
    requires
        well_formed(g),
    ensures
        well_formed(step_grid(g)),
        forall|r: int, c: int|
            0 <= r < 9 && 0 <= c < 9 && cell(g, r, c) != 0 ==> #[trigger] cell(step_grid(g), r, c)
                == cell(g, r, c),
        forall|r: int, c: int|
            0 <= r < 9 && 0 <= c < 9 ==> (#[trigger] cell(step_grid(g), r, c) != cell(g, r, c)
                <==> is_forced(g, r, c)),
{
    let h = step_grid(g);
    assert forall|r: int, c: int| 0 <= r < 9 && 0 <= c < 9 implies 0 <= #[trigger] cell(h, r, c)
        <= 9 && (cell(h, r, c) != cell(g, r, c) <==> is_forced(g, r, c)) by {
        if is_forced(g, r, c) {
            lemma_forced_digit(g, r, c);
        }
    }
}

/// After a step the forced cells are no longer empty, and no other cell has
/// changed: the number of empty cells goes down by the number of forced
/// cells.
pub proof fn lemma_step_fills_forced_cells(g: Grid)
    ensures
        empty_cells(step_grid(g)) == empty_cells(g).difference(forced_cells(g)),
        empty_cells(step_grid(g)).len() + forced_cells(g).len() == empty_cells(g).len(),
{
    let h = step_grid(g);
    lemma_cell_sets(g);
    assert forall|p: (int, int)| empty_cells(h).contains(p) <==> empty_cells(g).difference(
        forced_cells(g),
    ).contains(p) by {
        if 0 <= p.0 < 9 && 0 <= p.1 < 9 {
            if is_forced(g, p.0, p.1) {
                lemma_forced_digit(g, p.0, p.1);
            }
        }
    }
    vstd::set_lib::lemma_set_difference_len(empty_cells(g), forced_cells(g));
    assert(empty_cells(g).intersect(forced_cells(g)) =~= forced_cells(g));
}

/// A step on a grid without a forced cell changes nothing.
pub proof fn lemma_step_without_forced_cell(g: Grid)
    requires
        well_formed(g),
        forced_cells(g).len() == 0,
    ensures
        step_grid(g) == g,
{
    lemma_cell_sets(g);
    let h = step_grid(g);
    assert forall|r: int| 0 <= r < 9 implies #[trigger] h[r] == g[r] by {
        assert forall|c: int| 0 <= c < 9 implies h[r][c] == g[r][c] by {
            if is_forced(g, r, c) {
                assert(forced_cells(g).contains((r, c)));
            }
        }
    }
}

/// A step on a grid without an empty cell fills nothing and changes
/// nothing.
pub proof fn lemma_step_on_full_grid(g: Grid)
    requires
        well_formed(g),
        is_full(g),
    ensures
        forced_cells(g).len() == 0,
        step_grid(g) == g,
{
    assert(forced_cells(g) =~= Set::<(int, int)>::empty());
    lemma_step_without_forced_cell(g);
}

/// A step on a complete grid fills nothing and changes nothing.
pub proof fn lemma_step_on_complete_grid(g: Grid)
    requires
        well_formed(g),
        grid_complete(g),
    ensures
        forced_cells(g).len() == 0,
        step_grid(g) == g,
{
    lemma_complete_is_full(g);
    lemma_step_on_full_grid(g);
}

/// `solve` leaves a well-formed grid well formed and changes no filled cell.
pub proof fn lemma_solve_grid(g: Grid)
    requires
        well_formed(g),
    ensures
        well_formed(solve_grid(g)),
        forall|r: int, c: int|
            0 <= r < 9 && 0 <= c < 9 && cell(g, r, c) != 0 ==> #[trigger] cell(
                solve_grid(g),
                r,
                c,
            ) == cell(g, r, c),
    decreases empty_cells(g).len(),
{
    if !grid_complete(g) && forced_cells(g).len() != 0 {
        lemma_step_fills_forced_cells(g);
        lemma_step_grid(g);
        lemma_solve_grid(step_grid(g));
        assert forall|r: int, c: int|
            0 <= r < 9 && 0 <= c < 9 && cell(g, r, c) != 0 implies #[trigger] cell(
            solve_grid(g),
            r,
            c,
        ) == cell(g, r, c) by {}
    }
}

/// `solve` ends in one of two ways: the grid it leaves is complete, or it is
/// stalled, that is, incomplete with no forced cell. It takes at most 82
/// steps.
pub proof fn lemma_solve_ends(g: Grid)
    ensures
        grid_complete(solve_grid(g)) || forced_cells(solve_grid(g)).len() == 0,
        grid_complete(g) ==> solve_grid(g) == g && solve_steps(g) == 0,
        solve_steps(g) <= empty_cells(g).len() + 1 <= 82,
    decreases empty_cells(g).len(),
{
    lemma_cell_sets(g);
    if !grid_complete(g) && forced_cells(g).len() != 0 {
        lemma_step_fills_forced_cells(g);
        lemma_solve_ends(step_grid(g));
    }
}

/// What `solve` leaves is what its steps leave, taken one after the other.
pub proof fn lemma_solve_is_repeated_step(g: Grid)
    requires
        well_formed(g),
    ensures
        solve_grid(g) == step_times(g, solve_steps(g)),
    decreases empty_cells(g).len(),
{
    if grid_complete(g) {
        // no step is taken
    } else if forced_cells(g).len() == 0 {
        lemma_step_without_forced_cell(g);
        assert(step_times(g, 1) == step_times(step_grid(g), 0));
    } else {
        lemma_step_fills_forced_cells(g);
        lemma_step_grid(g);
        lemma_solve_is_repeated_step(step_grid(g));
    }
}

/// Where `solve` has ended, on a complete grid or on a stalled one, it
/// changes nothing when it is called again.
pub proof fn lemma_solve_twice(g: Grid)
    ensures
        solve_grid(solve_grid(g)) == solve_grid(g),
{
    lemma_solve_ends(g);
}

/// The grid in the middle of a step on `g`, when the first `k` cells in
/// row-major order have been visited.
pub open spec fn step_grid_upto(g: Grid, k: int) -> Grid {
    Seq::new(
        9,
        |r: int|
            Seq::new(
                9,
                |c: int|
                    if r * 9 + c < k {
                        step_cell(g, r, c)
                    } else {
                        cell(g, r, c)
                    },
            ),
    )
}

/// The forced cells of `g` among the first `k` cells in row-major order.
pub open spec fn forced_cells_upto(g: Grid, k: int) -> Set<(int, int)> {
    Set::new(
        |p: (int, int)|
            0 <= p.0 < 9 && 0 <= p.1 < 9 && p.0 * 9 + p.1 < k && is_forced(g, p.0, p.1),
    )
}

/// Before the first cell is visited the grid is as it was, and no forced cell
/// has been counted.
pub proof fn lemma_step_start(g: Grid)
    requires
        well_formed(g),
    ensures
        step_grid_upto(g, 0) == g,
        forced_cells_upto(g, 0).len() == 0,
{
    let h = step_grid_upto(g, 0);
    assert forall|r: int| 0 <= r < 9 implies #[trigger] h[r] == g[r] by {}
    assert(forced_cells_upto(g, 0) =~= Set::<(int, int)>::empty());
}

/// Visiting the cell at (`r`, `c`): where it is forced, its one candidate is
/// written and the cell is counted; where it is not, nothing changes. Until
/// then the cell holds what it held before the step.
pub proof fn lemma_step_visit(g: Grid, r: int, c: int)
    requires
        well_formed(g),
        0 <= r < 9,
        0 <= c < 9,
    ensures
        cell(step_grid_upto(g, r * 9 + c), r, c) == cell(g, r, c),
        well_formed(step_grid_upto(g, r * 9 + c)),
        is_forced(g, r, c) ==> step_grid_upto(g, r * 9 + c + 1) == set_cell(
            step_grid_upto(g, r * 9 + c),
            r,
            c,
            step_cell(g, r, c),
        ) && forced_cells_upto(g, r * 9 + c + 1).len() == forced_cells_upto(g, r * 9 + c).len()
            + 1,
        !is_forced(g, r, c) ==> step_grid_upto(g, r * 9 + c + 1) == step_grid_upto(g, r * 9 + c)
            && forced_cells_upto(g, r * 9 + c + 1) == forced_cells_upto(g, r * 9 + c),
{
    let k = r * 9 + c;
    let before = step_grid_upto(g, k);
    let after = step_grid_upto(g, k + 1);
    assert forall|r2: int, c2: int| 0 <= r2 < 9 && 0 <= c2 < 9 implies 0 <= #[trigger] cell(
        before,
        r2,
        c2,
    ) <= 9 by {
        if is_forced(g, r2, c2) {
            lemma_forced_digit(g, r2, c2);
        }
    }
    let target = if is_forced(g, r, c) {
        set_cell(before, r, c, step_cell(g, r, c))
    } else {
        before
    };
    assert forall|r2: int| 0 <= r2 < 9 implies #[trigger] after[r2] == target[r2] by {}
    lemma_all_cells();
    lemma_len_subset(forced_cells_upto(g, k), all_cells());
    if is_forced(g, r, c) {
        assert(forced_cells_upto(g, k + 1) =~= forced_cells_upto(g, k).insert((r, c)));
    }
}

/// When all 81 cells have been visited the step is done.
pub proof fn lemma_step_end(g: Grid)
    ensures
        step_grid_upto(g, 81) == step_grid(g),
        forced_cells_upto(g, 81) == forced_cells(g),
{
    let h = step_grid_upto(g, 81);
    let t = step_grid(g);
    assert forall|r: int| 0 <= r < 9 implies #[trigger] h[r] == t[r] by {}
}

} // verus!
