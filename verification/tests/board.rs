use rudoku::{Board, Sudoku, SudokuError};

const PUZZLE: &str =
    "379000014060010070080009005435007000090040020000800436900700080040080050850000249";

#[test]
fn blank_board_from_new() {
    let board = Board::new();
    assert_eq!(board.rows(), vec![vec![0; 9]; 9]);
}

#[test]
fn blank_board_is_valid() {
    let board = Board::new();
    assert_eq!(board.board_valid(), true);
    assert_eq!(board.board_complete(), false);
}

#[test]
fn set_value() {
    let mut board = Board::new();
    board.set_value(0, 0, 1).unwrap();
    assert_eq!(
        board.rows(),
        [
            [1, 0, 0, 0, 0, 0, 0, 0, 0],
            [0, 0, 0, 0, 0, 0, 0, 0, 0],
            [0, 0, 0, 0, 0, 0, 0, 0, 0],
            [0, 0, 0, 0, 0, 0, 0, 0, 0],
            [0, 0, 0, 0, 0, 0, 0, 0, 0],
            [0, 0, 0, 0, 0, 0, 0, 0, 0],
            [0, 0, 0, 0, 0, 0, 0, 0, 0],
            [0, 0, 0, 0, 0, 0, 0, 0, 0],
            [0, 0, 0, 0, 0, 0, 0, 0, 0],
        ]
    );
    board.set_value(3, 5, 9).unwrap();
    assert_eq!(
        board.rows(),
        [
            [1, 0, 0, 0, 0, 0, 0, 0, 0],
            [0, 0, 0, 0, 0, 0, 0, 0, 0],
            [0, 0, 0, 0, 0, 0, 0, 0, 0],
            [0, 0, 0, 0, 0, 9, 0, 0, 0],
            [0, 0, 0, 0, 0, 0, 0, 0, 0],
            [0, 0, 0, 0, 0, 0, 0, 0, 0],
            [0, 0, 0, 0, 0, 0, 0, 0, 0],
            [0, 0, 0, 0, 0, 0, 0, 0, 0],
            [0, 0, 0, 0, 0, 0, 0, 0, 0],
        ]
    );
}

#[test]
fn correct_board_from_string() {
    let board = Board::from_string(
        "379000014060010070080009005435007000090040020000800436900700080040080050850000249",
    )
    .unwrap();
    assert_eq!(
        board.rows(),
        [
            [3, 7, 9, 0, 0, 0, 0, 1, 4],
            [0, 6, 0, 0, 1, 0, 0, 7, 0],
            [0, 8, 0, 0, 0, 9, 0, 0, 5],
            [4, 3, 5, 0, 0, 7, 0, 0, 0],
            [0, 9, 0, 0, 4, 0, 0, 2, 0],
            [0, 0, 0, 8, 0, 0, 4, 3, 6],
            [9, 0, 0, 7, 0, 0, 0, 8, 0],
            [0, 4, 0, 0, 8, 0, 0, 5, 0],
            [8, 5, 0, 0, 0, 0, 2, 4, 9]
        ]
    );
}

#[test]
fn incomplete_valid_board_string_is_valid() {
    let board = Board::from_string(
        "379000014060010070080009005435007000090040020000800436900700080040080050850000249",
    )
    .unwrap();
    assert_eq!(board.board_valid(), true);
    assert_eq!(board.board_complete(), false);
}

#[test]
fn complete_valid_board_string_is_valid_and_complete() {
    let board = Board::from_string(
        "845632179732918654196745328683574912457291836219863547361429785574186293928357461",
    )
    .unwrap();
    assert_eq!(board.board_valid(), true);
    assert_eq!(board.rows_complete(), true);
    assert_eq!(board.cols_complete(), true);
    assert_eq!(board.squares_complete(), true);
    assert_eq!(board.board_complete(), true);
}

#[test]
fn test_squares() {
    let board = Board::from_string(
        "379000014060010070080009005435007000090040020000800436900700080040080050850000249",
    )
    .unwrap();
    assert_eq!(
        board.squares(),
        vec![
            vec![3, 7, 9, 0, 6, 0, 0, 8, 0],
            vec![0, 0, 0, 0, 1, 0, 0, 0, 9],
            vec![0, 1, 4, 0, 7, 0, 0, 0, 5],
            vec![4, 3, 5, 0, 9, 0, 0, 0, 0],
            vec![0, 0, 7, 0, 4, 0, 8, 0, 0],
            vec![0, 0, 0, 0, 2, 0, 4, 3, 6],
            vec![9, 0, 0, 0, 4, 0, 8, 5, 0],
            vec![7, 0, 0, 0, 8, 0, 0, 0, 0],
            vec![0, 8, 0, 0, 5, 0, 2, 4, 9]
        ]
    );
}

#[test]
fn test_get_row() {
    let board = Board::from_string(
        "379000014060010070080009005435007000090040020000800436900700080040080050850000249",
    )
    .unwrap();
    assert_eq!(board.get_row(0), vec![3, 7, 9, 0, 0, 0, 0, 1, 4]);
    assert_eq!(board.get_row(1), vec![0, 6, 0, 0, 1, 0, 0, 7, 0]);
    assert_eq!(board.get_row(2), vec![0, 8, 0, 0, 0, 9, 0, 0, 5]);
    assert_eq!(board.get_row(3), vec![4, 3, 5, 0, 0, 7, 0, 0, 0]);
    assert_eq!(board.get_row(4), vec![0, 9, 0, 0, 4, 0, 0, 2, 0]);
    assert_eq!(board.get_row(5), vec![0, 0, 0, 8, 0, 0, 4, 3, 6]);
    assert_eq!(board.get_row(6), vec![9, 0, 0, 7, 0, 0, 0, 8, 0]);
    assert_eq!(board.get_row(7), vec![0, 4, 0, 0, 8, 0, 0, 5, 0]);
    assert_eq!(board.get_row(8), vec![8, 5, 0, 0, 0, 0, 2, 4, 9]);
}

#[test]
fn test_get_col() {
    let board = Board::from_string(
        "379000014060010070080009005435007000090040020000800436900700080040080050850000249",
    )
    .unwrap();
    assert_eq!(board.get_col(0), vec![3, 0, 0, 4, 0, 0, 9, 0, 8]);
    assert_eq!(board.get_col(1), vec![7, 6, 8, 3, 9, 0, 0, 4, 5]);
    assert_eq!(board.get_col(2), vec![9, 0, 0, 5, 0, 0, 0, 0, 0]);
    assert_eq!(board.get_col(3), vec![0, 0, 0, 0, 0, 8, 7, 0, 0]);
    assert_eq!(board.get_col(4), vec![0, 1, 0, 0, 4, 0, 0, 8, 0]);
    assert_eq!(board.get_col(5), vec![0, 0, 9, 7, 0, 0, 0, 0, 0]);
    assert_eq!(board.get_col(6), vec![0, 0, 0, 0, 0, 4, 0, 0, 2]);
    assert_eq!(board.get_col(7), vec![1, 7, 0, 0, 2, 3, 8, 5, 4]);
    assert_eq!(board.get_col(8), vec![4, 0, 5, 0, 0, 6, 0, 0, 9]);
}

#[test]
fn test_get_square() {
    let board = Board::from_string(
        "379000014060010070080009005435007000090040020000800436900700080040080050850000249",
    )
    .unwrap();
    assert_eq!(board.get_square(0, 0), vec![3, 7, 9, 0, 6, 0, 0, 8, 0]);
    assert_eq!(board.get_square(8, 8), vec![0, 8, 0, 0, 5, 0, 2, 4, 9]);
    assert_eq!(board.get_square(4, 4), vec![0, 0, 7, 0, 4, 0, 8, 0, 0]);
    assert_eq!(board.get_square(4, 2), vec![4, 3, 5, 0, 9, 0, 0, 0, 0]);
    assert_eq!(board.get_square(7, 3), vec![7, 0, 0, 0, 8, 0, 0, 0, 0]);
}

#[test]
fn test_possible_values() {
    let board = Board::from_string(
        "379000014060010070080009005435007000090040020000800436900700080040080050850000249",
    )
    .unwrap();
    assert_eq!(board.possible_values()[0][0], vec![3]);
    assert_eq!(board.possible_values()[1][0], vec![2, 5]);
    assert_eq!(board.possible_values()[0][3], vec![2, 5, 6]);
}

#[test]
fn test_solve_tick() {
    let mut board = Board::from_string(
        "379000014060010070080009005435007000090040020000800436900700080040080050850000249",
    )
    .unwrap();
    assert_eq!(board.solve_tick(), 2);
    assert_eq!(
        board.rows(),
        [
            [3, 7, 9, 0, 0, 0, 0, 1, 4],
            [0, 6, 0, 0, 1, 0, 0, 7, 0],
            [0, 8, 0, 0, 0, 9, 0, 6, 5],
            [4, 3, 5, 0, 0, 7, 0, 9, 0],
            [0, 9, 0, 0, 4, 0, 0, 2, 0],
            [0, 0, 0, 8, 0, 0, 4, 3, 6],
            [9, 0, 0, 7, 0, 0, 0, 8, 0],
            [0, 4, 0, 0, 8, 0, 0, 5, 0],
            [8, 5, 0, 0, 0, 0, 2, 4, 9],
        ]
    );
    assert_eq!(board.solve_tick(), 2);
    assert_eq!(
        board.rows(),
        [
            [3, 7, 9, 0, 0, 0, 8, 1, 4],
            [0, 6, 0, 0, 1, 0, 0, 7, 0],
            [0, 8, 0, 0, 0, 9, 3, 6, 5],
            [4, 3, 5, 0, 0, 7, 0, 9, 0],
            [0, 9, 0, 0, 4, 0, 0, 2, 0],
            [0, 0, 0, 8, 0, 0, 4, 3, 6],
            [9, 0, 0, 7, 0, 0, 0, 8, 0],
            [0, 4, 0, 0, 8, 0, 0, 5, 0],
            [8, 5, 0, 0, 0, 0, 2, 4, 9]
        ]
    );
    assert_eq!(board.solve_tick(), 3);
    assert_eq!(
        board.rows(),
        [
            [3, 7, 9, 0, 0, 0, 8, 1, 4],
            [0, 6, 0, 0, 1, 0, 9, 7, 2],
            [0, 8, 0, 0, 0, 9, 3, 6, 5],
            [4, 3, 5, 0, 0, 7, 1, 9, 0],
            [0, 9, 0, 0, 4, 0, 0, 2, 0],
            [0, 0, 0, 8, 0, 0, 4, 3, 6],
            [9, 0, 0, 7, 0, 0, 0, 8, 0],
            [0, 4, 0, 0, 8, 0, 0, 5, 0],
            [8, 5, 0, 0, 0, 0, 2, 4, 9],
        ]
    );
    assert_eq!(board.solve_tick(), 4);
    assert_eq!(
        board.rows(),
        [
            [3, 7, 9, 0, 0, 0, 8, 1, 4],
            [5, 6, 4, 0, 1, 0, 9, 7, 2],
            [0, 8, 0, 0, 0, 9, 3, 6, 5],
            [4, 3, 5, 0, 0, 7, 1, 9, 8],
            [0, 9, 0, 0, 4, 0, 0, 2, 0],
            [0, 0, 0, 8, 0, 0, 4, 3, 6],
            [9, 0, 0, 7, 0, 0, 6, 8, 0],
            [0, 4, 0, 0, 8, 0, 0, 5, 0],
            [8, 5, 0, 0, 0, 0, 2, 4, 9]
        ]
    );
    assert_eq!(board.solve_tick(), 3);
    assert_eq!(
        board.rows(),
        [
            [3, 7, 9, 0, 0, 0, 8, 1, 4],
            [5, 6, 4, 3, 1, 0, 9, 7, 2],
            [0, 8, 0, 0, 0, 9, 3, 6, 5],
            [4, 3, 5, 0, 0, 7, 1, 9, 8],
            [0, 9, 0, 0, 4, 0, 0, 2, 7],
            [0, 0, 0, 8, 0, 0, 4, 3, 6],
            [9, 0, 0, 7, 0, 0, 6, 8, 0],
            [0, 4, 0, 0, 8, 0, 7, 5, 0],
            [8, 5, 0, 0, 0, 0, 2, 4, 9]
        ]
    );
}

#[test]
fn test_solve_easy() {
    let mut board = Board::from_string(
        "002000500010705020400090007049000730801030409036000210200080004080902060007000800",
    )
    .unwrap();
    assert_eq!(board.solve(), Ok(12));
    assert_eq!(
        board.rows(),
        [
            [9, 7, 2, 8, 6, 3, 5, 4, 1],
            [6, 1, 8, 7, 4, 5, 9, 2, 3],
            [4, 5, 3, 2, 9, 1, 6, 8, 7],
            [5, 4, 9, 1, 2, 8, 7, 3, 6],
            [8, 2, 1, 6, 3, 7, 4, 5, 9],
            [7, 3, 6, 4, 5, 9, 2, 1, 8],
            [2, 9, 5, 3, 8, 6, 1, 7, 4],
            [1, 8, 4, 9, 7, 2, 3, 6, 5],
            [3, 6, 7, 5, 1, 4, 8, 9, 2]
        ]
    );
    assert_eq!(board.board_valid(), true);
    assert_eq!(board.board_complete(), true);
}

#[test]
fn from_string_refuses_a_short_text() {
    assert_eq!(Board::from_string("123").err(), Some(SudokuError::Parse));
    assert_eq!(Board::from_string("").err(), Some(SudokuError::Parse));
    assert_eq!(Board::from_string(&PUZZLE[..80]).err(), Some(SudokuError::Parse));
}

#[test]
fn from_string_refuses_a_long_text() {
    let long = format!("{}0", PUZZLE);
    assert_eq!(Board::from_string(&long).err(), Some(SudokuError::Parse));
}

#[test]
fn from_string_refuses_what_is_no_digit() {
    let with_letter = format!("{}x", &PUZZLE[..80]);
    assert_eq!(Board::from_string(&with_letter).err(), Some(SudokuError::Parse));
    let with_dot = format!(".{}", &PUZZLE[1..]);
    assert_eq!(Board::from_string(&with_dot).err(), Some(SudokuError::Parse));
    let with_slash = format!("/{}", &PUZZLE[1..]);
    assert_eq!(Board::from_string(&with_slash).err(), Some(SudokuError::Parse));
    let with_colon = format!(":{}", &PUZZLE[1..]);
    assert_eq!(Board::from_string(&with_colon).err(), Some(SudokuError::Parse));
}

#[test]
fn from_string_counts_characters_not_bytes() {
    // 81 characters, one of them an Arabic-Indic digit of two bytes.
    let text = format!("\u{0663}{}", &PUZZLE[1..]);
    assert_eq!(text.chars().count(), 81);
    assert_eq!(Board::from_string(&text).err(), Some(SudokuError::Parse));
    // 81 bytes, but only 80 characters.
    let text = format!("\u{00e9}{}", &PUZZLE[2..]);
    assert_eq!(text.len(), 81);
    assert_eq!(Board::from_string(&text).err(), Some(SudokuError::Parse));
}

#[test]
fn from_string_reads_every_digit() {
    let text = "012345678901234567890123456789012345678901234567890123456789012345678901234567890";
    let board = Board::from_string(text).unwrap();
    for r in 0..9 {
        for c in 0..9 {
            assert_eq!(board.get_value(r, c), Ok(((r * 9 + c) % 10) as i32));
        }
    }
}

#[test]
fn text_round_trip() {
    for text in [
        PUZZLE,
        "002000500010705020400090007049000730801030409036000210200080004080902060007000800",
        "845632179732918654196745328683574912457291836219863547361429785574186293928357461",
        "000000000000000000000000000000000000000000000000000000000000000000000000000000000",
    ] {
        let board = Board::from_string(text).unwrap();
        let mut written = String::new();
        for row in board.rows() {
            for value in row {
                written.push_str(&value.to_string());
            }
        }
        assert_eq!(written, text);
    }
}

#[test]
fn get_value_reads_what_set_value_wrote() {
    for r in 0..9 {
        for c in 0..9 {
            for value in 1..=9 {
                let mut board = Board::new();
                assert_eq!(board.set_value(r, c, value), Ok(()));
                for r2 in 0..9 {
                    for c2 in 0..9 {
                        let expected = if r2 == r && c2 == c { value } else { 0 };
                        assert_eq!(board.get_value(r2, c2), Ok(expected));
                    }
                }
            }
        }
    }
}

#[test]
fn set_value_can_empty_a_cell() {
    let mut board = Board::from_string(PUZZLE).unwrap();
    assert_eq!(board.get_value(0, 0), Ok(3));
    assert_eq!(board.set_value(0, 0, 0), Ok(()));
    assert_eq!(board.get_value(0, 0), Ok(0));
    assert_eq!(board.get_row(0), vec![0, 7, 9, 0, 0, 0, 0, 1, 4]);
}

#[test]
fn get_value_refuses_a_cell_off_the_board() {
    let board = Board::from_string(PUZZLE).unwrap();
    assert_eq!(board.get_value(9, 0), Err(SudokuError::Index));
    assert_eq!(board.get_value(0, 9), Err(SudokuError::Index));
    assert_eq!(board.get_value(usize::MAX, usize::MAX), Err(SudokuError::Index));
    assert_eq!(board.get_value(8, 8), Ok(9));
}

#[test]
fn set_value_refuses_a_cell_off_the_board() {
    let mut board = Board::from_string(PUZZLE).unwrap();
    let before = board.rows();
    assert_eq!(board.set_value(9, 0, 1), Err(SudokuError::Index));
    assert_eq!(board.set_value(0, 9, 1), Err(SudokuError::Index));
    assert_eq!(board.set_value(100, 100, 1), Err(SudokuError::Index));
    assert_eq!(board.rows(), before);
}

#[test]
fn rows_cols_and_squares_of_one_board() {
    let board = Board::from_string(PUZZLE).unwrap();
    let rows = board.rows();
    let cols = board.cols();
    let squares = board.squares();
    assert_eq!(rows.len(), 9);
    assert_eq!(cols.len(), 9);
    assert_eq!(squares.len(), 9);
    for r in 0..9 {
        assert_eq!(rows[r], board.get_row(r));
        assert_eq!(cols[r], board.get_col(r));
        for c in 0..9 {
            assert_eq!(cols[c][r], rows[r][c]);
            let b = (r / 3) * 3 + c / 3;
            let k = (r % 3) * 3 + c % 3;
            assert_eq!(squares[b][k], rows[r][c]);
            assert_eq!(board.get_square(r, c), squares[b]);
        }
    }
    assert_eq!(cols[7], vec![1, 7, 0, 0, 2, 3, 8, 5, 4]);
}

#[test]
fn to_string_shows_nine_lines_of_nine_digits() {
    let board = Board::from_string(PUZZLE).unwrap();
    assert_eq!(
        board.to_string(),
        "3 7 9 0 0 0 0 1 4\n\
         0 6 0 0 1 0 0 7 0\n\
         0 8 0 0 0 9 0 0 5\n\
         4 3 5 0 0 7 0 0 0\n\
         0 9 0 0 4 0 0 2 0\n\
         0 0 0 8 0 0 4 3 6\n\
         9 0 0 7 0 0 0 8 0\n\
         0 4 0 0 8 0 0 5 0\n\
         8 5 0 0 0 0 2 4 9"
    );
    assert_eq!(board.to_string().len(), 161);
}

#[test]
fn to_string_of_an_empty_board() {
    let line = "0 0 0 0 0 0 0 0 0";
    let expected = vec![line; 9].join("\n");
    assert_eq!(Board::new().to_string(), expected);
}

#[test]
fn to_string_follows_set_value() {
    let mut board = Board::new();
    board.set_value(8, 8, 7).unwrap();
    board.set_value(0, 0, 1).unwrap();
    board.set_value(4, 3, 9).unwrap();
    let text = board.to_string();
    let lines: Vec<&str> = text.split('\n').collect();
    assert_eq!(lines.len(), 9);
    assert_eq!(lines[0], "1 0 0 0 0 0 0 0 0");
    assert_eq!(lines[4], "0 0 0 9 0 0 0 0 0");
    assert_eq!(lines[8], "0 0 0 0 0 0 0 0 7");
}
