//! A verified 9x9 Sudoku engine: a row/column/box validity check, a
//! recursive backtracking solver, and a puzzle generator that seeds the
//! diagonal boxes with random permutations, solves the board, and then
//! clears a difficulty-dependent number of cells.

pub mod board;
pub mod laws;
pub mod sudoku;

pub use sudoku::{
    check_board, fill_block, generate_board, is_num_valid, remove_numbers, resolv_backtrack,
};
