//! A named group of contests.

use std::collections::HashSet;
use vstd::prelude::*;

verus! {

/// A group of contests: its id, its name and the ids of its contests.
#[derive(Debug)]
pub struct ContestGroup {
    pub id: u64,
    pub name: String,
    pub contests: HashSet<u64>,
}

impl ContestGroup {
    /// The group with the given id, name and contests.
    pub fn new(id: u64, name: String, contests: HashSet<u64>) -> (group: Self)
        ensures
            group.id == id,
            group.name == name,
            group.contests == contests,
    {
        Self { id, name, contests }
    }
}

} // verus!
