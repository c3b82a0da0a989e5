//! Snapshot handles for repeatable reads.
use vstd::prelude::*;

use crate::types::Sequence;

verus! {

/// A pin on one committed state, so that repeated reads see the same rows.
#[derive(Debug, Clone, Copy, PartialEq, Eq, Structural)]
pub struct Snapshot {
    /// Last commit that reads through the snapshot see.
    pub read_sequence: Sequence,
}

impl Snapshot {
    /// Pins the state at `read_sequence`.
    pub fn new(read_sequence: Sequence) -> (snapshot: Snapshot)
        ensures
            snapshot.read_sequence == read_sequence,
    {
        Snapshot { read_sequence }
    }

    /// Returns the last commit that reads through the snapshot see.
    pub fn read_sequence(&self) -> (sequence: Sequence)
        ensures
            sequence == self.read_sequence,
    {
        self.read_sequence
    }
}

} // verus!
