pub mod cli;
pub mod grid;
pub mod laws;
pub mod messages;
pub mod numbers;
pub mod solver;
