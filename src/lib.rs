//! A Sudoku solver that keeps, for each undecided square, the set of values
//! still possible as a 9-bit mask, and narrows those masks by propagating
//! every fixed value through rows, columns and houses.

pub mod parser;
mod random;
pub mod solve;
pub mod solver;
pub mod state;

pub use solve::solve;
