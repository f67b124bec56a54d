pub mod active_positions_set;
pub mod builder;
pub mod constraint;
pub mod constraint_set;
pub mod helpers;
pub mod sum_search;
pub mod variants;
