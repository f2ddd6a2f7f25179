use sudoku::peers::peer_test;
use sudoku::{
    load_board, propagate, serialize_board, try_solve, CodecError, PeerTable, Propagation,
    SudokuBoard,
};

const CLASSIC: &str = "530070000600195000098000060800060003400803001700020006060000280000419005000080079";
const CLASSIC_SOLVED: &str =
    "534678912672195348198342567859761423426853791713924856961537284287419635345286179";

fn assert_valid(board: &SudokuBoard) {
    assert_eq!(board.len(), 81);
    for i in 0..81 {
        assert_eq!(board[i].size(), 1);
        for j in 0..81 {
            if peer_test(i, j) {
                assert_ne!(board[i].get_first(), board[j].get_first());
            }
        }
    }
}

#[test]
fn classic_puzzle_gives_its_solution() {
    let board = load_board(CLASSIC).unwrap();
    let solved = try_solve(board).unwrap();
    assert_valid(&solved);
    assert_eq!(serialize_board(&solved).unwrap(), CLASSIC_SOLVED);
}

#[test]
fn all_unknown_is_solved_to_a_valid_grid() {
    let text: String = ".".repeat(81);
    let board = load_board(&text).unwrap();
    let solved = try_solve(board).unwrap();
    assert_valid(&solved);
}

#[test]
fn solved_board_respects_givens() {
    let board = load_board(CLASSIC).unwrap();
    let solved = try_solve(board.clone()).unwrap();
    for i in 0..81 {
        if board[i].size() == 1 {
            assert_eq!(board[i], solved[i]);
        }
    }
}

#[test]
fn conflicting_full_grid_is_unsolvable() {
    // swap two digits of the first row so that columns clash
    let mut text: Vec<char> = CLASSIC_SOLVED.chars().collect();
    text[0] = '3';
    text[1] = '5';
    let s: String = text.into_iter().collect();
    let board = load_board(&s).unwrap();
    assert!(try_solve(board).is_none());
}

#[test]
fn duplicate_givens_in_a_row_are_unsolvable() {
    let text = format!("55{}", "0".repeat(79));
    let board = load_board(&text).unwrap();
    assert!(try_solve(board).is_none());
}

#[test]
fn complete_valid_grid_is_returned_unchanged() {
    let board = load_board(CLASSIC_SOLVED).unwrap();
    let solved = try_solve(board.clone()).unwrap();
    assert_eq!(solved, board);
}

#[test]
fn propagation_twice_changes_nothing() {
    let peers = PeerTable::new();
    let mut board = load_board(CLASSIC).unwrap();
    let first = propagate(&peers, &mut board);
    assert_ne!(first, Propagation::Contradiction);
    let after_first = board.clone();
    let second = propagate(&peers, &mut board);
    assert_eq!(second, first);
    assert_eq!(board, after_first);
}

#[test]
fn propagation_stalls_on_empty_board() {
    let peers = PeerTable::new();
    let mut board = load_board(&".".repeat(81)).unwrap();
    assert_eq!(propagate(&peers, &mut board), Propagation::Stalled);
    assert!(board.iter().all(|c| c.size() == 9));
}

#[test]
fn propagation_finds_contradiction() {
    let peers = PeerTable::new();
    // the first cell sees 1..=8 in its row and 9 in its column
    let text = format!("012345678900000000{}", "0".repeat(63));
    let mut board = load_board(&text).unwrap();
    assert_eq!(propagate(&peers, &mut board), Propagation::Contradiction);
    let _ = CodecError::MalformedInput;
}

#[test]
fn classic_result_equals_parsed_solution() {
    let board = load_board(CLASSIC).unwrap();
    let solved = try_solve(board).unwrap();
    assert_eq!(solved, load_board(CLASSIC_SOLVED).unwrap());
}

#[test]
fn solving_a_solution_again_changes_nothing() {
    let first = try_solve(load_board(CLASSIC).unwrap()).unwrap();
    let second = try_solve(first.clone()).unwrap();
    assert_eq!(second, first);
}
