//! Validation and single-step deduction for square grid puzzles: classic
//! 9 by 9 Sudoku and larger perfect-square alphabets such as 16 by 16.
//!
//! A grid is checked once by the validator, which marks every cell that
//! repeats a value of its row, column or block, and then advanced by the
//! deduction engine one claimed cell at a time until it stalls.

pub mod cell;
pub mod units;
pub mod grid;
pub mod validate;
pub mod solve;
pub mod theorems;
