//! Keys of stored records: a user key with the commit that wrote it.
use vstd::prelude::*;
use vstd::slice::slice_to_vec;

use crate::bytes_order;
use crate::bytes_order::KeyOrder;
use crate::types::Sequence;

verus! {

/// What a record does to its user key.
#[derive(Debug, Clone, Copy, PartialEq, Eq, Structural)]
pub enum ValueKind {
    /// Sets a value.
    Put,
    /// Deletes the key.
    PointDelete,
    /// Deletes a range of keys.
    RangeDelete,
}

impl ValueKind {
    /// Position of the kind in the order of otherwise equal record keys.
    pub open spec fn rank(self) -> int {
        match self {
            ValueKind::Put => 0,
            ValueKind::PointDelete => 1,
            ValueKind::RangeDelete => 2,
        }
    }

    fn rank_number(self) -> (rank: u8)
        ensures
            rank == self.rank(),
    {
        match self {
            ValueKind::Put => 0,
            ValueKind::PointDelete => 1,
            ValueKind::RangeDelete => 2,
        }
    }
}

/// Key of a stored record.
///
/// Records are ordered by user key; the records of one user key are ordered from
/// the newest to the oldest.
#[derive(Debug, PartialEq, Eq)]
pub struct InternalKey {
    /// Key the application wrote.
    pub user_key: Vec<u8>,
    /// Commit that wrote the record.
    pub sequence: Sequence,
    /// What the record does.
    pub kind: ValueKind,
    /// Position of the operation inside its commit.
    pub batch_index: u32,
}

/// Mathematical form of an [`InternalKey`].
pub struct RecordKey {
    /// Key the application wrote.
    pub user_key: Seq<u8>,
    /// Commit that wrote the record.
    pub sequence: Sequence,
    /// What the record does.
    pub kind: ValueKind,
    /// Position of the operation inside its commit.
    pub batch_index: u32,
}

impl View for InternalKey {
    type V = RecordKey;

    open spec fn view(&self) -> RecordKey {
        RecordKey {
            user_key: self.user_key@,
            sequence: self.sequence,
            kind: self.kind,
            batch_index: self.batch_index,
        }
    }
}

impl RecordKey {
    /// Whether this record is newer than `other`, both being of one user key.
    pub open spec fn newer_than(self, other: RecordKey) -> bool {
        ||| self.sequence.0 > other.sequence.0
        ||| self.sequence.0 == other.sequence.0 && self.batch_index > other.batch_index
        ||| self.sequence.0 == other.sequence.0 && self.batch_index == other.batch_index
            && self.kind.rank() < other.kind.rank()
    }

    /// Whether this record comes strictly before `other`.
    pub open spec fn lt(self, other: RecordKey) -> bool {
        ||| bytes_order::bytes_lt(self.user_key, other.user_key)
        ||| self.user_key == other.user_key && self.newer_than(other)
    }
}

/// The record order is a strict total order.
pub proof fn record_order_facts()
    ensures
        forall|a: RecordKey| !#[trigger] a.lt(a),
        forall|a: RecordKey, b: RecordKey| #[trigger] a.lt(b) ==> !b.lt(a),
        forall|a: RecordKey, b: RecordKey| #[trigger] a.lt(b) || b.lt(a) || a == b,
        forall|a: RecordKey, b: RecordKey, c: RecordKey| #[trigger]
            a.lt(b) && #[trigger] b.lt(c) ==> a.lt(c),
{
    bytes_order::bytes_order_facts();
    assert forall|a: RecordKey, b: RecordKey| #[trigger] a.lt(b) || b.lt(a) || a == b by {
        if !a.lt(b) && !b.lt(a) {
            assert(a.user_key == b.user_key);
            assert(a.kind == b.kind);
        }
    }
}

impl Clone for InternalKey {
    fn clone(&self) -> (result: InternalKey)
        ensures
            result@ == self@,
    {
        InternalKey {
            user_key: slice_to_vec(self.user_key.as_slice()),
            sequence: self.sequence,
            kind: self.kind,
            batch_index: self.batch_index,
        }
    }
}

impl InternalKey {
    /// Builds the key of one record.
    pub fn new(user_key: Vec<u8>, sequence: Sequence, kind: ValueKind, batch_index: u32) -> (key:
        InternalKey)
        ensures
            key@ == (RecordKey { user_key: user_key@, sequence, kind, batch_index }),
    {
        InternalKey { user_key, sequence, kind, batch_index }
    }

    /// Returns the key the application wrote.
    pub fn user_key(&self) -> (key: &[u8])
        ensures
            key@ == self@.user_key,
    {
        self.user_key.as_slice()
    }

    /// Returns the commit that wrote the record.
    pub fn sequence(&self) -> (sequence: Sequence)
        ensures
            sequence == self@.sequence,
    {
        self.sequence
    }

    /// Returns what the record does.
    pub fn kind(&self) -> (kind: ValueKind)
        ensures
            kind == self@.kind,
    {
        self.kind
    }

    /// Returns the position of the operation inside its commit.
    pub fn batch_index(&self) -> (index: u32)
        ensures
            index == self@.batch_index,
    {
        self.batch_index
    }

    /// Tells how two records are ordered.
    pub fn order(&self, other: &InternalKey) -> (order: KeyOrder)
        ensures
            order == KeyOrder::Less <==> self@.lt(other@),
            order == KeyOrder::Equal <==> self@ == other@,
            order == KeyOrder::Greater <==> other@.lt(self@),
    {
        proof {
            record_order_facts();
            bytes_order::bytes_order_facts();
        }
        match bytes_order::order_bytes(self.user_key.as_slice(), other.user_key.as_slice()) {
            KeyOrder::Less => KeyOrder::Less,
            KeyOrder::Greater => KeyOrder::Greater,
            KeyOrder::Equal => {
                if self.sequence.0 != other.sequence.0 {
                    if self.sequence.0 > other.sequence.0 {
                        KeyOrder::Less
                    } else {
                        KeyOrder::Greater
                    }
                } else if self.batch_index != other.batch_index {
                    if self.batch_index > other.batch_index {
                        KeyOrder::Less
                    } else {
                        KeyOrder::Greater
                    }
                } else {
                    let left: u8 = self.kind.rank_number();
                    let right: u8 = other.kind.rank_number();
                    if left < right {
                        KeyOrder::Less
                    } else if left > right {
                        KeyOrder::Greater
                    } else {
                        KeyOrder::Equal
                    }
                }
            },
        }
    }

    /// Tells whether this record comes strictly before `other`.
    pub fn comes_before(&self, other: &InternalKey) -> (before: bool)
        ensures
            before == self@.lt(other@),
    {
        match self.order(other) {
            KeyOrder::Less => true,
            _ => false,
        }
    }
}

/// Records of one key come newest first: those of a later commit before those of an earlier one,
/// and those of a later operation of a commit before those of an earlier one. A put comes before a
/// deletion where both are equally new. Records of different keys come in key order, whatever their
/// commits.
pub proof fn newest_records_come_first(a: RecordKey, b: RecordKey)
    ensures
        a.user_key == b.user_key && a.sequence.0 > b.sequence.0 ==> a.lt(b) && !b.lt(a),
        a.user_key == b.user_key && a.sequence == b.sequence && a.batch_index > b.batch_index
            ==> a.lt(b) && !b.lt(a),
        a.user_key == b.user_key && a.sequence == b.sequence && a.batch_index == b.batch_index
            && a.kind is Put && !(b.kind is Put) ==> a.lt(b) && !b.lt(a),
        a.user_key == b.user_key && a.sequence == b.sequence && a.batch_index == b.batch_index
            && a.kind is PointDelete && b.kind is RangeDelete ==> a.lt(b) && !b.lt(a),
        bytes_order::bytes_lt(a.user_key, b.user_key) ==> a.lt(b) && !b.lt(a),
{
    record_order_facts();
}

} // verus!
