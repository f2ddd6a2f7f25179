//! A 9x9 Sudoku solver: candidate sets, the peer relation, constraint
//! propagation and backtracking search, with a text codec for boards.

pub mod cell;
pub mod peers;
pub mod board;
pub mod solver;
pub mod codec;

pub use board::SudokuBoard;
pub use cell::SudokuCell;
pub use codec::{load_board, serialize_board, CodecError};
pub use peers::PeerTable;
pub use solver::{propagate, try_solve, try_solve_with, Propagation};
