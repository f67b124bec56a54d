use vstd::prelude::*;

pub mod constraints;
pub mod grid;
pub mod io;
pub mod model;
pub mod solver;

verus! {
} // verus!
