//! A 9×9 Sudoku engine: the grid and its invariants, a backtracking solver in
//! an eager and in a stepwise form, a puzzle generator, and the state of a
//! game played on a generated puzzle.
pub mod sudoku;
pub mod ui;
