use vstd::prelude::*;

pub mod candidate;
pub mod names;
pub mod prefs;
mod random;
pub mod search;

pub use candidate::Candidate;
pub use prefs::{PrefGrid, TableError};
pub use search::{hill_climb, keep_better, pick_best, run_restarts, search};

verus! {

} // verus!
