//! Segments: the nine values of one row, one column or one box.
//!
//! Two rules are stated over a segment. It is *valid* when no digit occurs
//! in it twice (empty cells may repeat), and *complete* when it is a
//! permutation of the digits 1 to 9.

use vstd::prelude::*;

verus! {

/// No positive value occurs at two positions of `s`.
pub open spec fn no_repeated_digit(s: Seq<i32>) -> bool {
    forall|i: int, j: int| 0 <= i < j < s.len() && s[i] > 0 ==> s[i] != s[j]
}

/// `s` is a permutation of 1..=9: it has nine values and each digit is among
/// them.
pub open spec fn is_permutation_of_digits(s: Seq<i32>) -> bool {
    &&& s.len() == 9
    &&& forall|d: i32| 1 <= d <= 9 ==> s.contains(d)
}

/// `s` holds nine values, each of them a digit from 1 to 9, and no two of
/// them equal.
pub open spec fn nine_distinct_digits(s: Seq<i32>) -> bool {
    &&& s.len() == 9
    &&& forall|i: int| 0 <= i < 9 ==> 1 <= #[trigger] s[i] <= 9
    &&& forall|i: int, j: int| 0 <= i < j < 9 ==> s[i] != s[j]
}

/// Every segment of `segments` is valid.
pub open spec fn all_valid(segments: Seq<Seq<i32>>) -> bool {
    forall|k: int| 0 <= k < segments.len() ==> no_repeated_digit(#[trigger] segments[k])
}

/// Every segment of `segments` is complete.
pub open spec fn all_complete(segments: Seq<Seq<i32>>) -> bool {
    forall|k: int| 0 <= k < segments.len() ==> is_permutation_of_digits(#[trigger] segments[k])
}

/// The set of the digits 1 to 9.
pub open spec fn digits() -> Set<i32> {
    Set::new(|d: i32| 1 <= d <= 9)
}

proof fn lemma_digits_len()
    ensures
        digits().finite(),
        digits().len() == 9,
{
    let s: Set<i32> = set![1i32, 2i32, 3i32, 4i32, 5i32, 6i32, 7i32, 8i32, 9i32];
    assert(s =~= digits());
}

/// Nine values are a permutation of 1..=9 exactly when each of them is a
/// digit from 1 to 9 and no two of them are equal.
pub proof fn lemma_permutation_iff_distinct(s: Seq<i32>)
    ensures
        is_permutation_of_digits(s) <==> nine_distinct_digits(s),
{
    lemma_digits_len();
    s.lemma_cardinality_of_set();
    if is_permutation_of_digits(s) {
        vstd::set_lib::lemma_len_subset(digits(), s.to_set());
        vstd::set_lib::lemma_subset_equality(digits(), s.to_set());
        s.lemma_no_dup_set_cardinality();
        assert forall|i: int| 0 <= i < 9 implies 1 <= #[trigger] s[i] <= 9 by {
            assert(s.to_set().contains(s[i]));
        }
    }
    if nine_distinct_digits(s) {
        s.unique_seq_to_set();
        vstd::set_lib::lemma_subset_equality(s.to_set(), digits());
        assert forall|d: i32| 1 <= d <= 9 implies s.contains(d) by {
            assert(s.to_set().contains(d));
        }
    }
}

/// The sum of the first `n` values of `s`.
pub open spec fn sum_of_first(s: Seq<i32>, n: int) -> int
    decreases n,
{
    if n <= 0 {
        0
    } else {
        sum_of_first(s, n - 1) + s[n - 1]
    }
}

/// The sum of the values of `s`.
pub open spec fn segment_sum(s: Seq<i32>) -> int {
    sum_of_first(s, s.len() as int)
}

/// 1 where the value at position `i` of `s` is `d`, and 0 where it is not.
#[verifier::opaque]
spec fn hit(s: Seq<i32>, i: int, d: int) -> int {
    if s[i] == d {
        1
    } else {
        0
    }
}

/// A digit is the sum of the digits that it is equal to.
proof fn lemma_hits_of_position(s: Seq<i32>, i: int)
    requires
        nine_distinct_digits(s),
        0 <= i < 9,
    ensures
        s[i] == hit(s, i, 1) + 2 * hit(s, i, 2) + 3 * hit(s, i, 3) + 4 * hit(s, i, 4) + 5 * hit(
            s,
            i,
            5,
        ) + 6 * hit(s, i, 6) + 7 * hit(s, i, 7) + 8 * hit(s, i, 8) + 9 * hit(s, i, 9),
{
    reveal(hit);
}

/// In a permutation of the digits every digit stands at one position.
proof fn lemma_hits_of_digit(s: Seq<i32>, d: int)
    requires
        nine_distinct_digits(s),
        is_permutation_of_digits(s),
        1 <= d <= 9,
    ensures
        hit(s, 0, d) + hit(s, 1, d) + hit(s, 2, d) + hit(s, 3, d) + hit(s, 4, d) + hit(s, 5, d)
            + hit(s, 6, d) + hit(s, 7, d) + hit(s, 8, d) == 1,
{
    reveal(hit);
}

/// The values of a permutation of 1..=9 add up to 45.
pub proof fn lemma_permutation_sum(s: Seq<i32>)
    requires
        is_permutation_of_digits(s),
    ensures
        segment_sum(s) == 45,
{
    lemma_permutation_iff_distinct(s);
    assert(segment_sum(s) == s[0] + s[1] + s[2] + s[3] + s[4] + s[5] + s[6] + s[7] + s[8]) by {
        reveal_with_fuel(sum_of_first, 10);
    }
    lemma_hits_of_position(s, 0);
    lemma_hits_of_position(s, 1);
    lemma_hits_of_position(s, 2);
    lemma_hits_of_position(s, 3);
    lemma_hits_of_position(s, 4);
    lemma_hits_of_position(s, 5);
    lemma_hits_of_position(s, 6);
    lemma_hits_of_position(s, 7);
    lemma_hits_of_position(s, 8);
    lemma_hits_of_digit(s, 1);
    lemma_hits_of_digit(s, 2);
    lemma_hits_of_digit(s, 3);
    lemma_hits_of_digit(s, 4);
    lemma_hits_of_digit(s, 5);
    lemma_hits_of_digit(s, 6);
    lemma_hits_of_digit(s, 7);
    lemma_hits_of_digit(s, 8);
    lemma_hits_of_digit(s, 9);
}

/// A complete segment is valid and has no empty cell.
pub proof fn lemma_complete_is_valid(s: Seq<i32>)
    requires
        is_permutation_of_digits(s),
    ensures
        no_repeated_digit(s),
        forall|i: int| 0 <= i < 9 ==> #[trigger] s[i] != 0,
{
    lemma_permutation_iff_distinct(s);
}

/// Tells whether no digit occurs twice in `segment`. Values that are zero or
/// negative stand for empty cells and may repeat.
pub fn segment_valid(segment: &Vec<i32>) -> (valid: bool)
    ensures
        valid == no_repeated_digit(segment@),
{
    let n = segment.len();
    let mut i: usize = 0;
    while i < n
        invariant
            n == segment.len(),
            i <= n,
            forall|a: int, b: int|
                0 <= a < i && a < b < n && segment[a] > 0 ==> segment[a] != segment[b],
        decreases n - i,
    {
        let value = segment[i];
        if value > 0 {
            let mut j: usize = i + 1;
            while j < n
                invariant
                    n == segment.len(),
                    i < j <= n,
                    value > 0,
                    value == segment[i as int],
                    forall|b: int| i < b < j ==> segment[b] != value,
                decreases n - j,
            {
                if segment[j] == value {
                    return false;
                }
                j += 1;
            }
        }
        i += 1;
    }
    true
}

/// Tells whether every segment of `segments` is valid.
pub fn segments_valid(segments: Vec<Vec<i32>>) -> (valid: bool)
    ensures
        valid == all_valid(segments.deep_view()),
{
    let n = segments.len();
    let mut k: usize = 0;
    while k < n
        invariant
            n == segments.len(),
            k <= n,
            forall|a: int| 0 <= a < k ==> no_repeated_digit(#[trigger] segments.deep_view()[a]),
        decreases n - k,
    {
        assert(segments.deep_view()[k as int] == segments[k as int]@);
        if !segment_valid(&segments[k]) {
            return false;
        }
        k += 1;
    }
    true
}

/// Tells whether `segment` is a permutation of the digits 1 to 9.
///
/// That the nine values add up to 45 is not enough: 1, 1, 3, 4, 5, 6, 7, 9, 9
/// do so too. Each digit has to be there.
pub fn segment_complete(segment: &Vec<i32>) -> (complete: bool)
    ensures
        complete == is_permutation_of_digits(segment@),
{
    if segment.len() != 9 {
        return false;
    }
    proof {
        lemma_permutation_iff_distinct(segment@);
    }
    let mut seen: [bool; 10] = [false; 10];
    let mut i: usize = 0;
    while i < 9
        invariant
            segment.len() == 9,
            i <= 9,
            is_permutation_of_digits(segment@) <==> nine_distinct_digits(segment@),
            forall|a: int| 0 <= a < i ==> 1 <= #[trigger] segment[a] <= 9,
            forall|a: int, b: int| 0 <= a < b < i ==> segment[a] != segment[b],
            forall|d: int|
                1 <= d <= 9 ==> (#[trigger] seen[d] <==> exists|a: int|
                    0 <= a < i && segment[a] == d),
        decreases 9 - i,
    {
        let value = segment[i];
        if value < 1 || value > 9 {
            return false;
        }
        if seen[value as usize] {
            return false;
        }
        seen[value as usize] = true;
        i += 1;
    }
    true
}

/// Tells whether every segment of `segments` is complete.
pub fn segments_complete(segments: Vec<Vec<i32>>) -> (complete: bool)
    ensures
        complete == all_complete(segments.deep_view()),
{
    let n = segments.len();
    let mut k: usize = 0;
    while k < n
        invariant
            n == segments.len(),
            k <= n,
            forall|a: int|
                0 <= a < k ==> is_permutation_of_digits(#[trigger] segments.deep_view()[a]),
        decreases n - k,
    {
        assert(segments.deep_view()[k as int] == segments[k as int]@);
        if !segment_complete(&segments[k]) {
            return false;
        }
        k += 1;
    }
    true
}

/// Tells whether `digit` is among the values of `segment`.
pub fn segment_contains(segment: &Vec<i32>, digit: i32) -> (found: bool)
    ensures
        found == segment@.contains(digit),
{
    let n = segment.len();
    let mut i: usize = 0;
    while i < n
        invariant
            n == segment.len(),
            i <= n,
            forall|a: int| 0 <= a < i ==> segment[a] != digit,
        decreases n - i,
    {
        if segment[i] == digit {
            return true;
        }
        i += 1;
    }
    false
}

/// The digits from 1 to 9 that none of the three segments holds, in
/// ascending order.
pub fn free_digits(row: &Vec<i32>, col: &Vec<i32>, square: &Vec<i32>) -> (free: Vec<i32>)
    ensures
        forall|i: int, j: int| 0 <= i < j < free.len() ==> free[i] < free[j],
        forall|d: i32|
            #![trigger free@.contains(d)]
            free@.contains(d) <==> 1 <= d <= 9 && !row@.contains(d) && !col@.contains(d)
                && !square@.contains(d),
{
    let mut free: Vec<i32> = Vec::new();
    let mut digit: i32 = 1;
    while digit <= 9
        invariant
            1 <= digit <= 10,
            forall|i: int| 0 <= i < free.len() ==> free[i] < digit,
            forall|i: int, j: int| 0 <= i < j < free.len() ==> free[i] < free[j],
            forall|d: i32|
                #![trigger free@.contains(d)]
                free@.contains(d) <==> 1 <= d < digit && !row@.contains(d) && !col@.contains(d)
                    && !square@.contains(d),
        decreases 10 - digit,
    {
        if !segment_contains(row, digit) && !segment_contains(col, digit) && !segment_contains(
            square,
            digit,
        ) {
            let ghost before = free@;
            free.push(digit);
            assert forall|d: i32| #[trigger]
                free@.contains(d) <==> before.contains(d) || d == digit by {
                if before.contains(d) {
                    let i = choose|i: int| 0 <= i < before.len() && before[i] == d;
                    assert(free@[i] == d);
                }
                if d == digit {
                    assert(free@[before.len() as int] == d);
                }
            }
        }
        digit += 1;
    }
    free
}

} // verus!
