//! A 9x9 sudoku solver: a board with per-cell candidate sets, forced-move
//! propagation and a bounded backtracking search.
pub mod cell;
pub mod game;
pub mod grid;
pub mod search;
