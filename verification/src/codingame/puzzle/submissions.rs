//! Solutions as they were handed in.

pub mod shadow_casting;
