//! A backtracking solver for 9×9 Sudoku puzzles.

pub mod board;
pub mod grid;
pub mod mask;
pub mod parse;
pub mod rules;
pub mod search;
pub mod theorems;
pub mod timing;
