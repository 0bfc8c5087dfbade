//! A 9x9 Sudoku engine: constraint checking and backtracking search,
//! with machine-checked contracts for validity, restoration on failure,
//! and completeness of the search.

pub mod sudoku;
pub mod units;
