//! Optimal upgrade policies for an eight-slot loadout, by memoized backward induction.

pub mod levels;
pub mod gear;
pub mod utils;
pub mod solver;
