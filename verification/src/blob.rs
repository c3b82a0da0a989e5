//! References from records to value bytes.
use vstd::prelude::*;
use vstd::slice::slice_to_vec;

verus! {

/// Position of one value inside a blob file.
#[derive(Debug, Clone, Copy, PartialEq, Eq, Structural)]
pub struct BlobIndex {
    /// Blob file that holds the value.
    pub file_id: u64,
    /// Byte offset of the value's record in that file.
    pub offset: u64,
    /// Length of the value in bytes.
    pub value_len: u64,
}

/// Where the value of a record is.
#[derive(Debug, PartialEq, Eq)]
pub enum ValueRef {
    /// The bytes are held in the record.
    Inline(Vec<u8>),
    /// The bytes are in a blob file, found through the table's blob index.
    BlobIndex(BlobIndex),
    /// The bytes are in a blob file, at a known record.
    Blob {
        /// Blob file that holds the value.
        file_id: u64,
        /// Byte offset of the value's record in that file.
        offset: u64,
        /// Length of the value in bytes.
        value_len: u64,
    },
}

/// Mathematical form of a [`ValueRef`].
pub enum ValueView {
    /// See [`ValueRef::Inline`].
    Inline(Seq<u8>),
    /// See [`ValueRef::BlobIndex`].
    BlobIndex(BlobIndex),
    /// See [`ValueRef::Blob`].
    Blob(BlobIndex),
}

impl View for ValueRef {
    type V = ValueView;

    open spec fn view(&self) -> ValueView {
        match self {
            ValueRef::Inline(bytes) => ValueView::Inline(bytes@),
            ValueRef::BlobIndex(index) => ValueView::BlobIndex(*index),
            ValueRef::Blob { file_id, offset, value_len } => ValueView::Blob(
                BlobIndex { file_id: *file_id, offset: *offset, value_len: *value_len },
            ),
        }
    }
}

impl ValueView {
    /// Length of the value in bytes.
    pub open spec fn byte_len(self) -> nat {
        match self {
            ValueView::Inline(bytes) => bytes.len(),
            ValueView::BlobIndex(index) => index.value_len as nat,
            ValueView::Blob(index) => index.value_len as nat,
        }
    }
}

/// Mathematical form of an optional value.
pub open spec fn value_view(value: Option<ValueRef>) -> Option<ValueView> {
    match value {
        Some(value) => Some(value@),
        None => None,
    }
}

impl Clone for ValueRef {
    fn clone(&self) -> (result: ValueRef)
        ensures
            result@ == self@,
    {
        match self {
            ValueRef::Inline(bytes) => ValueRef::Inline(slice_to_vec(bytes.as_slice())),
            ValueRef::BlobIndex(index) => ValueRef::BlobIndex(*index),
            ValueRef::Blob { file_id, offset, value_len } => ValueRef::Blob {
                file_id: *file_id,
                offset: *offset,
                value_len: *value_len,
            },
        }
    }
}

impl ValueRef {
    /// Returns the length of the value in bytes.
    pub fn len(&self) -> (len: u64)
        ensures
            len == self@.byte_len(),
    {
        match self {
            ValueRef::Inline(bytes) => bytes.len() as u64,
            ValueRef::BlobIndex(index) => index.value_len,
            ValueRef::Blob { value_len, .. } => *value_len,
        }
    }
}

/// Copies an optional value reference.
pub fn clone_value(value: &Option<ValueRef>) -> (result: Option<ValueRef>)
    ensures
        value_view(result) == value_view(*value),
{
    match value {
        Some(value) => Some(value.clone()),
        None => None,
    }
}

} // verus!
