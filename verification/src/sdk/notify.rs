//! Change sets: who needs to hear that their derived schedule changed.
//! Computed from the engine's persisted digests; delivery is the
//! application's job.

use vstd::prelude::*;

use crate::model::PersonId;

verus! {

/// The people whose derived schedules changed in a batch pass: exactly
/// the set the digest refresh reported, in its order.
#[derive(Clone, Debug)]
pub struct ChangeSet {
    pub persons: Vec<PersonId>,
}

impl ChangeSet {
    pub fn is_empty(&self) -> (r: bool)
        ensures
            r == (self.persons@.len() == 0),
    {
        self.persons.len() == 0
    }
}

impl Default for ChangeSet {
    fn default() -> (r: ChangeSet)
        ensures
            r.persons@.len() == 0,
    {
        ChangeSet { persons: Vec::new() }
    }
}

} // verus!
