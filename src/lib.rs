//! Solver for the numbers game: reach a target integer from a handful of
//! tiles with the four arithmetic operations, each tile used at most once.
pub mod types;
pub mod utils;
pub mod solver;
pub mod analysis;
pub mod game;
