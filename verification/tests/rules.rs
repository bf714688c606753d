use rudoku::{Board, Sudoku};

const SOLVED: &str =
    "845632179732918654196745328683574912457291836219863547361429785574186293928357461";

fn board_with(cells: &[(usize, usize, i32)]) -> Board {
    let mut board = Board::new();
    for &(r, c, value) in cells {
        board.set_value(r, c, value).unwrap();
    }
    board
}

#[test]
fn two_equal_digits_in_a_row_are_not_valid() {
    let board = board_with(&[(0, 0, 1), (0, 1, 1)]);
    assert_eq!(board.get_row(0), vec![1, 1, 0, 0, 0, 0, 0, 0, 0]);
    assert_eq!(board.board_valid(), false);
    assert_eq!(board.rows_valid(), false);
}

#[test]
fn a_repeat_in_a_row_shows_in_the_row_check() {
    let board = board_with(&[(4, 0, 6), (4, 8, 6)]);
    assert_eq!(board.rows_valid(), false);
    assert_eq!(board.cols_valid(), true);
    assert_eq!(board.squares_valid(), true);
    assert_eq!(board.board_valid(), false);
}

#[test]
fn a_repeat_in_a_column_shows_in_the_column_check() {
    let board = board_with(&[(0, 5, 2), (8, 5, 2)]);
    assert_eq!(board.rows_valid(), true);
    assert_eq!(board.cols_valid(), false);
    assert_eq!(board.squares_valid(), true);
    assert_eq!(board.board_valid(), false);
}

#[test]
fn a_repeat_in_a_box_shows_in_the_box_check() {
    let board = board_with(&[(3, 3, 9), (5, 5, 9)]);
    assert_eq!(board.rows_valid(), true);
    assert_eq!(board.cols_valid(), true);
    assert_eq!(board.squares_valid(), false);
    assert_eq!(board.board_valid(), false);
}

#[test]
fn equal_digits_in_different_units_are_valid() {
    let board = board_with(&[(0, 0, 5), (1, 3, 5), (2, 6, 5), (3, 1, 5), (8, 8, 5)]);
    assert_eq!(board.board_valid(), true);
    assert_eq!(board.board_complete(), false);
}

#[test]
fn distinct_digits_and_empty_cells_are_valid() {
    let board = board_with(&[
        (0, 0, 1),
        (0, 1, 2),
        (0, 2, 3),
        (1, 0, 4),
        (1, 1, 5),
        (1, 2, 6),
        (2, 0, 7),
        (2, 1, 8),
        (2, 2, 9),
    ]);
    assert_eq!(board.board_valid(), true);
    assert_eq!(board.squares()[0], vec![1, 2, 3, 4, 5, 6, 7, 8, 9]);
    assert_eq!(board.board_complete(), false);
}

#[test]
fn a_solved_board_is_complete_and_valid() {
    let board = Board::from_string(SOLVED).unwrap();
    assert_eq!(board.board_complete(), true);
    assert_eq!(board.board_valid(), true);
}

#[test]
fn one_empty_cell_makes_a_board_incomplete() {
    let mut board = Board::from_string(SOLVED).unwrap();
    board.set_value(4, 4, 0).unwrap();
    assert_eq!(board.board_valid(), true);
    assert_eq!(board.rows_complete(), false);
    assert_eq!(board.cols_complete(), false);
    assert_eq!(board.squares_complete(), false);
    assert_eq!(board.board_complete(), false);
}

#[test]
fn a_full_board_with_a_repeat_is_not_complete() {
    let mut board = Board::from_string(SOLVED).unwrap();
    assert_eq!(board.get_value(8, 8), Ok(1));
    board.set_value(8, 8, 2).unwrap();
    assert_eq!(board.board_valid(), false);
    assert_eq!(board.board_complete(), false);
}

#[test]
fn rows_that_add_up_to_forty_five_are_not_complete() {
    // Every row, column and box of this board adds up to 45.
    let board = Board::from_string(
        "555555555555555555555555555555555555555555555555555555555555555555555555555555555",
    )
    .unwrap();
    for segment in board.rows().iter().chain(&board.cols()).chain(&board.squares()) {
        assert_eq!(segment.iter().sum::<i32>(), 45);
    }
    assert_eq!(board.rows_complete(), false);
    assert_eq!(board.cols_complete(), false);
    assert_eq!(board.squares_complete(), false);
    assert_eq!(board.board_complete(), false);
    assert_eq!(board.board_valid(), false);
}

#[test]
fn one_row_with_a_repeat_and_the_right_sum_is_not_complete() {
    // The first row of a solved board, 8 4 5 6 3 2 1 7 9, becomes
    // 8 4 5 6 3 3 1 6 9: two repeats, and still 45.
    let mut board = Board::from_string(SOLVED).unwrap();
    board.set_value(0, 5, 3).unwrap();
    board.set_value(0, 7, 6).unwrap();
    assert_eq!(board.get_row(0).iter().sum::<i32>(), 45);
    assert_eq!(board.rows_complete(), false);
    assert_eq!(board.board_complete(), false);
}

#[test]
fn complete_rows_alone_are_not_a_complete_board() {
    // Nine times the same row: every row is a permutation, no column is.
    let board = Board::from_string(
        "123456789123456789123456789123456789123456789123456789123456789123456789123456789",
    )
    .unwrap();
    assert_eq!(board.rows_complete(), true);
    assert_eq!(board.rows_valid(), true);
    assert_eq!(board.cols_complete(), false);
    assert_eq!(board.cols_valid(), false);
    assert_eq!(board.squares_complete(), false);
    assert_eq!(board.board_complete(), false);
    assert_eq!(board.board_valid(), false);
}

#[test]
fn complete_rows_and_columns_alone_are_not_a_complete_board() {
    // Each row is the row above, shifted by one: rows and columns are
    // permutations, the boxes are not.
    let board = Board::from_string(
        "123456789234567891345678912456789123567891234678912345789123456891234567912345678",
    )
    .unwrap();
    assert_eq!(board.rows_complete(), true);
    assert_eq!(board.cols_complete(), true);
    assert_eq!(board.squares_complete(), false);
    assert_eq!(board.squares_valid(), false);
    assert_eq!(board.board_complete(), false);
}
