//! The two text forms of a grid. The one that is read is 81 decimal digits,
//! row by row, `0` for an empty cell. The one that is shown has nine lines,
//! the nine digits of a row on each, with a space between two digits.

use vstd::prelude::*;
use crate::grid::{Grid, well_formed, cell};

verus! {

/// `c` is one of the characters `0` to `9`.
pub open spec fn is_digit(c: char) -> bool {
    '0' <= c <= '9'
}

/// The value that the digit `c` stands for.
pub open spec fn digit_value(c: char) -> i32 {
    (c as int - '0' as int) as i32
}

/// The digit that stands for the value `v`.
pub open spec fn digit_char(v: i32) -> char {
    ((v + '0' as int) as u8) as char
}

/// `s` is the text form of some grid: 81 characters, each a decimal digit.
pub open spec fn is_digit_string(s: Seq<char>) -> bool {
    &&& s.len() == 81
    &&& forall|k: int| 0 <= k < 81 ==> is_digit(#[trigger] s[k])
}

/// The grid that the text `s` stands for.
pub open spec fn grid_of_digits(s: Seq<char>) -> Grid {
    Seq::new(9, |r: int| Seq::new(9, |c: int| digit_value(s[r * 9 + c])))
}

/// The text form of `g`: its cells in row-major order, one digit each.
pub open spec fn digits_of_grid(g: Grid) -> Seq<char> {
    Seq::new(81, |k: int| digit_char(cell(g, k / 9, k % 9)))
}

/// The text form of a grid stands for a well-formed grid.
pub proof fn lemma_parsed_grid_well_formed(s: Seq<char>)
    requires
        is_digit_string(s),
    ensures
        well_formed(grid_of_digits(s)),
{
    let g = grid_of_digits(s);
    assert forall|r: int, c: int| 0 <= r < 9 && 0 <= c < 9 implies 0 <= #[trigger] cell(g, r, c)
        <= 9 by {}
}

/// Reading a text and writing the grid out again gives the text back.
pub proof fn lemma_text_round_trip(s: Seq<char>)
    requires
        is_digit_string(s),
    ensures
        digits_of_grid(grid_of_digits(s)) == s,
{
}

/// Writing a well-formed grid out and reading the text gives the grid back.
pub proof fn lemma_grid_round_trip(g: Grid)
    requires
        well_formed(g),
    ensures
        is_digit_string(digits_of_grid(g)),
        grid_of_digits(digits_of_grid(g)) == g,
{
    let s = digits_of_grid(g);
    let h = grid_of_digits(s);
    assert forall|r: int| 0 <= r < 9 implies #[trigger] h[r] == g[r] by {}
}

/// The length of one shown line, the line break included.
pub open spec fn line_len() -> int {
    18
}

/// The character at position `k` of the text that shows `g`: the digits of a
/// row stand at the even positions of its line, spaces between them, and a
/// line break after every row but the last.
pub open spec fn shown_char(g: Grid, k: int) -> char {
    let r = k / line_len();
    let p = k % line_len();
    if p == line_len() - 1 {
        '\n'
    } else if p % 2 == 1 {
        ' '
    } else {
        digit_char(cell(g, r, p / 2))
    }
}

/// The text that shows `g`: 9 lines of 17 characters and 8 line breaks.
pub open spec fn shown_text(g: Grid) -> Seq<char> {
    Seq::new(161, |k: int| shown_char(g, k))
}

/// The text of one digit.
pub fn digit_text(value: i32) -> (text: &'static str)
    requires
        0 <= value <= 9,
    ensures
        text@ == seq![digit_char(value)],
{
    proof {
        reveal_strlit("0");
        reveal_strlit("1");
        reveal_strlit("2");
        reveal_strlit("3");
        reveal_strlit("4");
        reveal_strlit("5");
        reveal_strlit("6");
        reveal_strlit("7");
        reveal_strlit("8");
        reveal_strlit("9");
    }
    if value == 0 {
        "0"
    } else if value == 1 {
        "1"
    } else if value == 2 {
        "2"
    } else if value == 3 {
        "3"
    } else if value == 4 {
        "4"
    } else if value == 5 {
        "5"
    } else if value == 6 {
        "6"
    } else if value == 7 {
        "7"
    } else if value == 8 {
        "8"
    } else {
        "9"
    }
}

} // verus!
