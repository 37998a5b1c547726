//! What a planning run is asked for.

use crate::term::Term;
use vstd::prelude::*;

verus! {

/// The settings of a planning run.
#[derive(Debug)]
pub struct Config {
    /// The fewest credits that a semester may hold.
    pub min_credits: u8,
    /// The most credits that a semester may hold.
    pub max_credits: u8,
    /// The number of terms to plan.
    pub semesters: u8,
    /// The first term to plan.
    pub starting_term: Term,
    /// For each elective group, by name, the fewest credits that a complete
    /// schedule must hold of it.
    pub groups: Vec<(String, u8)>,
    /// Whether incomplete schedules are shown.
    pub show_incomplete: bool,
}

impl Config {
    /// The name of the elective group at position `i`.
    pub open spec fn group_name(&self, i: int) -> Seq<char> {
        self.groups@[i].0@
    }

    /// The fewest credits wanted of the elective group at position `i`.
    pub open spec fn group_minimum(&self, i: int) -> u8 {
        self.groups@[i].1
    }
}

} // verus!
