//! Verified solvers for a series of small puzzles, one module per quest.

pub mod q01;
pub mod q02;
pub mod q03;
pub mod q05;
pub mod q06;
pub mod text;
