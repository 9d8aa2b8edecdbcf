//! A sudoku solver: constraint propagation over rows, columns and boxes,
//! with guessing and backtracking when no forced step is left.
pub mod board;
pub mod count;
pub mod units;
pub mod solver;
pub mod text;
pub mod io;
pub mod cli;
pub mod search;
