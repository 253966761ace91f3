//! Exact scheduling of precedence-constrained jobs under renewable resource
//! limits: the consumption profiles, the partial-schedule state with its
//! transition, and the merge that bounds a set of states by one.

pub mod bitset;
pub mod heuristics;
pub mod instance;
pub mod model;
pub mod profile;
pub mod relax;
pub mod state;
