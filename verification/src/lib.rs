//! Verified solutions to a set of small daily text puzzles.
//!
//! Each module solves one puzzle: it parses the puzzle's input format and
//! computes the answer, with contracts stating exactly what is returned.
//! The centrepiece is `grid`, a breadth-first-search pathfinder over an
//! elevation grid, proved to return a shortest legal path.

pub mod calories;
pub mod crt;
pub mod filesystem;
pub mod grid;
pub mod markers;
pub mod monkeys;
pub mod ranges;
pub mod rope;
pub mod rps;
pub mod rucksack;
pub mod signal;
pub mod stacks;
pub mod text;
pub mod trees;
