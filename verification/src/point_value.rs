//! Values returned by point reads.
use bytes::Bytes;
use std::ops::Range;
use vstd::prelude::*;
use vstd::slice::{slice_subrange, slice_to_vec};

use crate::blob::{ValueRef, ValueView};
use crate::error::{Error, ErrorKind, Result};
use crate::types::Value;

verus! {

/// A reference-counted byte buffer.
#[verifier::external_type_specification]
#[verifier::external_body]
pub struct ExBytes(bytes::Bytes);

/// The bytes that a shared buffer holds.
pub uninterp spec fn shared_bytes(bytes: Bytes) -> Seq<u8>;

/// Reads a shared buffer as a slice, by `<bytes::Bytes as AsRef<[u8]>>::as_ref`.
///
/// The slice holds exactly the bytes of the buffer.
#[verifier::external_body]
fn shared_slice(bytes: &Bytes) -> (slice: &[u8])
    ensures
        slice@ == shared_bytes(*bytes),
{
    bytes.as_ref()
}

/// Makes another handle on a shared buffer, by `<bytes::Bytes as Clone>::clone`.
///
/// Both handles hold the same bytes.
#[verifier::external_body]
fn share(bytes: &Bytes) -> (other: Bytes)
    ensures
        shared_bytes(other) == shared_bytes(*bytes),
{
    bytes.clone()
}

/// Value returned by a point read.
///
/// A `PointValue` may own its bytes or keep a shared reference to bytes inside
/// a decoded table block. Use `as_bytes` when you only need to inspect the
/// value, or `into_vec` when you need owned bytes.
#[derive(Debug, PartialEq, Eq)]
pub struct PointValue {
    inner: PointValueInner,
}

#[derive(Debug, PartialEq, Eq)]
enum PointValueInner {
    Owned(Value),
    Shared { bytes: Bytes, start: usize, end: usize },
}

impl View for PointValue {
    type V = Seq<u8>;

    closed spec fn view(&self) -> Seq<u8> {
        match self.inner {
            PointValueInner::Owned(bytes) => bytes@,
            PointValueInner::Shared { bytes, start, end } => shared_bytes(bytes).subrange(
                start as int,
                end as int,
            ),
        }
    }
}

impl AsRef<[u8]> for PointValue {
    fn as_ref(&self) -> (bytes: &[u8])
        ensures
            bytes@ == self@,
    {
        self.as_bytes()
    }
}

impl PointValue {
    /// A shared value lies inside its buffer.
    #[verifier::type_invariant]
    spec fn in_bounds(self) -> bool {
        match self.inner {
            PointValueInner::Owned(_) => true,
            PointValueInner::Shared { bytes, start, end } => start <= end <= shared_bytes(
                bytes,
            ).len(),
        }
    }

    /// Returns the value bytes.
    pub fn as_bytes(&self) -> (bytes: &[u8])
        ensures
            bytes@ == self@,
    {
        proof {
            use_type_invariant(self);
        }
        match &self.inner {
            PointValueInner::Owned(bytes) => bytes.as_slice(),
            PointValueInner::Shared { bytes, start, end } => slice_subrange(
                shared_slice(bytes),
                *start,
                *end,
            ),
        }
    }

    /// Returns owned value bytes.
    ///
    /// This is allocation-free when the value is already owned, and copies when
    /// the value is backed by shared table-block bytes.
    pub fn into_vec(self) -> (bytes: Vec<u8>)
        ensures
            bytes@ == self@,
    {
        proof {
            use_type_invariant(&self);
        }
        match self.inner {
            PointValueInner::Owned(bytes) => bytes,
            PointValueInner::Shared { bytes, start, end } => slice_to_vec(
                slice_subrange(shared_slice(&bytes), start, end),
            ),
        }
    }

    /// Returns an owned `Value`.
    ///
    /// This is equivalent to `into_vec`.
    pub fn into_value(self) -> (value: Value)
        ensures
            value@ == self@,
    {
        self.into_vec()
    }

    /// Wraps owned bytes.
    pub fn from_owned(bytes: Value) -> (value: PointValue)
        ensures
            value@ == bytes@,
    {
        PointValue { inner: PointValueInner::Owned(bytes) }
    }

    /// Wraps a range of a shared buffer; a range outside it is corruption.
    pub fn from_shared(bytes: Bytes, range: Range<usize>) -> (result: Result<PointValue>)
        ensures
            match result {
                Ok(value) => {
                    &&& range.start <= range.end <= shared_bytes(bytes).len()
                    &&& value@ == shared_bytes(bytes).subrange(range.start as int, range.end as int)
                },
                Err(error) => {
                    &&& range.start > range.end || range.end > shared_bytes(bytes).len()
                    &&& error.says(
                        ErrorKind::Corruption,
                        "point value range outside data block"@,
                    )
                },
            },
    {
        if range.start > range.end || range.end > shared_slice(&bytes).len() {
            return Err(Error::corruption("point value range outside data block"));
        }
        Ok(
            PointValue {
                inner: PointValueInner::Shared { bytes, start: range.start, end: range.end },
            },
        )
    }
}

impl Clone for PointValue {
    fn clone(&self) -> (result: PointValue)
        ensures
            result@ == self@,
    {
        proof {
            use_type_invariant(self);
        }
        match &self.inner {
            PointValueInner::Owned(bytes) => PointValue::from_owned(
                slice_to_vec(bytes.as_slice()),
            ),
            PointValueInner::Shared { bytes, start, end } => PointValue {
                inner: PointValueInner::Shared { bytes: share(bytes), start: *start, end: *end },
            },
        }
    }
}

/// What a read found: the value itself, or the place of its bytes in blob storage.
#[derive(Debug)]
pub enum PointValueSource {
    /// The value.
    Value(PointValue),
    /// The place of the value.
    Blob(ValueRef),
}

/// Mathematical form of a [`PointValueSource`].
pub enum SourceView {
    /// See [`PointValueSource::Value`].
    Value(Seq<u8>),
    /// See [`PointValueSource::Blob`].
    Blob(ValueView),
}

impl View for PointValueSource {
    type V = SourceView;

    open spec fn view(&self) -> SourceView {
        match self {
            PointValueSource::Value(value) => SourceView::Value(value@),
            PointValueSource::Blob(value) => SourceView::Blob(value@),
        }
    }
}

impl Clone for PointValueSource {
    fn clone(&self) -> (result: PointValueSource)
        ensures
            result@ == self@,
    {
        match self {
            PointValueSource::Value(value) => PointValueSource::Value(value.clone()),
            PointValueSource::Blob(value) => PointValueSource::Blob(value.clone()),
        }
    }
}

impl SourceView {
    /// What a read of a record with this value finds.
    pub open spec fn of(value: ValueView) -> SourceView {
        match value {
            ValueView::Inline(bytes) => SourceView::Value(bytes),
            ValueView::BlobIndex(_) => SourceView::Blob(value),
            ValueView::Blob(_) => SourceView::Blob(value),
        }
    }
}

/// Message for a blob reference in a database without blob storage.
pub open spec fn no_blob_storage_text() -> Seq<char> {
    "in-memory database cannot read blob value references"@
}

impl PointValueSource {
    /// Turns the value of a record into what a read finds.
    pub fn from_value_ref(value: ValueRef) -> (source: PointValueSource)
        ensures
            source@ == SourceView::of(value@),
    {
        match value {
            ValueRef::Inline(bytes) => PointValueSource::Value(PointValue::from_owned(bytes)),
            ValueRef::BlobIndex(index) => PointValueSource::Blob(ValueRef::BlobIndex(index)),
            ValueRef::Blob { file_id, offset, value_len } => PointValueSource::Blob(
                ValueRef::Blob { file_id, offset, value_len },
            ),
        }
    }

    /// Wraps a range of a shared buffer; a range outside it is corruption.
    pub fn from_shared(bytes: Bytes, range: Range<usize>) -> (result: Result<PointValueSource>)
        ensures
            match result {
                Ok(source) => {
                    &&& range.start <= range.end <= shared_bytes(bytes).len()
                    &&& source@ == SourceView::Value(
                        shared_bytes(bytes).subrange(range.start as int, range.end as int),
                    )
                },
                Err(error) => {
                    &&& range.start > range.end || range.end > shared_bytes(bytes).len()
                    &&& error.says(
                        ErrorKind::Corruption,
                        "point value range outside data block"@,
                    )
                },
            },
    {
        match PointValue::from_shared(bytes, range) {
            Ok(value) => Ok(PointValueSource::Value(value)),
            Err(error) => Err(error),
        }
    }

    /// Completes a read with the bytes that the host fetched from blob storage.
    ///
    /// `fetched` is `None` for a database that has no blob storage.
    pub fn into_point_value(self, fetched: Option<Vec<u8>>) -> (result: Result<PointValue>)
        ensures
            match self@ {
                SourceView::Value(bytes) => result is Ok && result->Ok_0@ == bytes,
                SourceView::Blob(_) => match fetched {
                    Some(bytes) => result is Ok && result->Ok_0@ == bytes@,
                    None => result is Err && result->Err_0.says(
                        ErrorKind::Corruption,
                        no_blob_storage_text(),
                    ),
                },
            },
    {
        match self {
            PointValueSource::Value(value) => Ok(value),
            PointValueSource::Blob(_) => match fetched {
                Some(bytes) => Ok(PointValue::from_owned(bytes)),
                None => Err(
                    Error::corruption("in-memory database cannot read blob value references"),
                ),
            },
        }
    }
}

} // verus!
