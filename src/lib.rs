//! A constraint-propagation solver for 9x9 Sudoku puzzles.
//!
//! Every cell holds the set of values it may still take. Each pass removes
//! from every unsolved cell the values already placed in its row, column and
//! block; passes repeat until one of them solves no new cell.

pub mod token;
pub mod candidates;
pub mod grid;
pub mod game;
