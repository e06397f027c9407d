//! Puzzle solutions.

pub mod shadow_casting;
pub mod submissions;
pub mod the_lost_files;
