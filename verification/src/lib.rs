//! A 9x9 Sudoku solving library.
//!
//! A board holds, for every cell, either a fixed digit or the set of
//! candidate digits still possible there.  Constraint propagation
//! (`SudokuBoard::solve`) assigns forced digits until the board is complete,
//! stuck, or provably unsatisfiable; a sequential search (`resolve`)
//! completes stuck boards by guessing; and an explicit-stack backtracking
//! enumerator (`brute_force`) finds every completion of a raw digit grid,
//! one per call.

pub mod model;

pub mod cell;

pub mod board;

pub mod search;

pub mod brute;
