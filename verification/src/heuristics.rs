//! The order in which states are ranked when a layer has to be narrowed.

use crate::state::State;
use std::cmp::Ordering;
use vstd::prelude::*;

verus! {

/// Ranks states by their depth.
#[derive(Debug, Copy, Clone)]
pub struct RcpspRanking;

impl RcpspRanking {
    /// Compares two states by depth: the shallower one is the lesser.
    pub fn compare(&self, sa: &State, sb: &State) -> (order: Ordering)
        ensures
            order == if sa.depth < sb.depth {
                Ordering::Less
            } else if sa.depth == sb.depth {
                Ordering::Equal
            } else {
                Ordering::Greater
            },
    {
        if sa.depth < sb.depth {
            Ordering::Less
        } else if sa.depth == sb.depth {
            Ordering::Equal
        } else {
            Ordering::Greater
        }
    }
}

} // verus!
