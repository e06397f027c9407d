//! Puzzles.

pub mod puzzle;
