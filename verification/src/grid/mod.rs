pub mod candidate_cell;
pub mod candidate_grid;
pub mod grid;
pub mod position;
pub mod render;

pub use candidate_cell::CandidateCell;
pub use candidate_grid::{CandidateGrid, SolutionGrid};
pub use grid::Grid;
pub use position::Position;
