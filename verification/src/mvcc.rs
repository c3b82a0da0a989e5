//! Which commits a read sees.
use vstd::prelude::*;

use crate::types::Sequence;

verus! {

/// The view of history that a read at one sequence has.
#[derive(Debug, Clone, Copy, PartialEq, Eq, Structural)]
pub struct Visibility {
    /// Last commit that is seen.
    pub read_sequence: Sequence,
}

impl Visibility {
    /// Builds the view of a read at `read_sequence`.
    pub fn new(read_sequence: Sequence) -> (visibility: Visibility)
        ensures
            visibility.read_sequence == read_sequence,
    {
        Visibility { read_sequence }
    }

    /// Returns the last commit that is seen.
    pub fn read_sequence(self) -> (sequence: Sequence)
        ensures
            sequence == self.read_sequence,
    {
        self.read_sequence
    }

    /// Tells whether a commit at `sequence` is seen.
    pub fn can_see(self, sequence: Sequence) -> (seen: bool)
        ensures
            seen == (sequence.0 <= self.read_sequence.0),
    {
        sequence.get() <= self.read_sequence.get()
    }
}

} // verus!
