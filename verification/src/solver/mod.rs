pub mod puzzle;
pub mod solver;

pub use solver::solve;
