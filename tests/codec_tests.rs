use sudoku::{load_board, serialize_board, CodecError, SudokuCell};

const SOLVED: &str =
    "534678912672195348198342567859761423426853791713924856961537284287419635345286179";

#[test]
fn round_trip_of_complete_grid() {
    let board = load_board(SOLVED).unwrap();
    assert_eq!(serialize_board(&board).unwrap(), SOLVED);
}

#[test]
fn short_text_is_malformed() {
    let text = "0".repeat(80);
    assert_eq!(load_board(&text), Err(CodecError::MalformedInput));
}

#[test]
fn long_text_is_malformed() {
    let text = "0".repeat(82);
    assert_eq!(load_board(&text), Err(CodecError::MalformedInput));
}

#[test]
fn empty_text_is_malformed() {
    assert_eq!(load_board(""), Err(CodecError::MalformedInput));
}

#[test]
fn other_characters_are_skipped() {
    let mut text = String::new();
    for (k, c) in SOLVED.chars().enumerate() {
        text.push(c);
        if k % 9 == 8 {
            text.push_str(" |\n");
        }
    }
    let board = load_board(&text).unwrap();
    assert_eq!(serialize_board(&board).unwrap(), SOLVED);
}

#[test]
fn skipped_characters_do_not_count() {
    let text = format!("{}xyz", "0".repeat(80));
    assert_eq!(load_board(&text), Err(CodecError::MalformedInput));
}

#[test]
fn unknown_cells_read_as_full() {
    let text = format!(".0{}", "1".repeat(79));
    let board = load_board(&text).unwrap();
    assert_eq!(board[0].size(), 9);
    assert_eq!(board[1].size(), 9);
    assert_eq!(board[2].size(), 1);
    assert_eq!(board[2].get_first(), Some(1));
}

#[test]
fn given_cells_read_as_single() {
    let board = load_board(SOLVED).unwrap();
    assert_eq!((board[0].size(), board[0].get_first()), (1, Some(5)));
    assert_eq!((board[80].size(), board[80].get_first()), (1, Some(9)));
}

#[test]
fn unsolved_board_is_not_written() {
    let board = load_board(&".".repeat(81)).unwrap();
    assert_eq!(serialize_board(&board), Err(CodecError::UnfixedCell));
}

#[test]
fn short_board_is_not_written() {
    let board = vec![SudokuCell::new_all_set(); 3];
    assert_eq!(serialize_board(&board), Err(CodecError::MalformedInput));
}
