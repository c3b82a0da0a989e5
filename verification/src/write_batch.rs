//! Operations of atomic write batches.
use vstd::prelude::*;

use crate::blob::ValueView;
use crate::internal_key::{RecordKey, ValueKind};
use crate::memtable::Record;
use crate::range_tombstone::Tombstone;
use crate::types::{KeyRange, RangeView, Sequence};

verus! {

/// One operation of a write batch.
#[derive(Debug)]
pub enum BatchOperation {
    /// Sets a value.
    Put {
        /// Bucket that is written.
        bucket: String,
        /// User key.
        key: Vec<u8>,
        /// Value bytes.
        value: Vec<u8>,
    },
    /// Deletes a key.
    Delete {
        /// Bucket that is written.
        bucket: String,
        /// User key.
        key: Vec<u8>,
    },
    /// Deletes a range of keys.
    DeleteRange {
        /// Bucket that is written.
        bucket: String,
        /// Keys that are deleted.
        range: KeyRange,
    },
}

/// What an operation does inside its bucket.
pub enum Operation {
    /// See [`BatchOperation::Put`].
    Put(Seq<u8>, Seq<u8>),
    /// See [`BatchOperation::Delete`].
    Delete(Seq<u8>),
    /// See [`BatchOperation::DeleteRange`].
    DeleteRange(RangeView),
}

impl View for BatchOperation {
    type V = Operation;

    open spec fn view(&self) -> Operation {
        match self {
            BatchOperation::Put { key, value, .. } => Operation::Put(key@, value@),
            BatchOperation::Delete { key, .. } => Operation::Delete(key@),
            BatchOperation::DeleteRange { range, .. } => Operation::DeleteRange(range@),
        }
    }
}

impl BatchOperation {
    /// The bucket that the operation writes.
    pub open spec fn spec_bucket(&self) -> Seq<char> {
        match self {
            BatchOperation::Put { bucket, .. } => bucket@,
            BatchOperation::Delete { bucket, .. } => bucket@,
            BatchOperation::DeleteRange { bucket, .. } => bucket@,
        }
    }
}

impl Operation {
    /// The point record that the operation writes, if it writes one.
    pub open spec fn record(self, sequence: Sequence, batch_index: u32) -> Option<Record> {
        match self {
            Operation::Put(key, value) => Some(
                Record {
                    key: RecordKey { user_key: key, sequence, kind: ValueKind::Put, batch_index },
                    value: Some(ValueView::Inline(value)),
                },
            ),
            Operation::Delete(key) => Some(
                Record {
                    key: RecordKey {
                        user_key: key,
                        sequence,
                        kind: ValueKind::PointDelete,
                        batch_index,
                    },
                    value: None,
                },
            ),
            Operation::DeleteRange(_) => None,
        }
    }

    /// The range deletion that the operation writes, if it writes one.
    pub open spec fn tombstone(self, sequence: Sequence, batch_index: u32) -> Option<Tombstone> {
        match self {
            Operation::DeleteRange(range) => Some(Tombstone { range, sequence, batch_index }),
            _ => None,
        }
    }
}

} // verus!
