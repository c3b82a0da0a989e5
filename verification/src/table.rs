//! Tables: immutable sorted records with their properties.
use vstd::prelude::*;
use vstd::slice::slice_to_vec;

use crate::bytes_order;
use crate::codec::CodecId;
use crate::error::{Error, ErrorKind, Result};
use crate::internal_key::{InternalKey, RecordKey};
use crate::memtable;
use crate::memtable::{MemtableEntry, Record, RecordRun};
use crate::range_tombstone;
use crate::range_tombstone::{RangeTombstone, Tombstone};
use crate::types::{KeyRange, Sequence};

verus! {

/// Identifier of a table file.
#[derive(Debug, Clone, Copy, PartialEq, Eq, Structural)]
pub struct TableId(pub u64);

impl TableId {
    /// Returns the raw identifier.
    pub fn get(self) -> (id: u64)
        ensures
            id == self.0,
    {
        self.0
    }
}

/// Level of a table; level zero takes flushed memtables.
#[derive(Debug, Clone, Copy, PartialEq, Eq, Structural)]
pub struct TableLevel(pub u32);

impl TableLevel {
    /// The level that takes flushed memtables.
    pub fn zero() -> (level: TableLevel)
        ensures
            level.0 == 0,
    {
        TableLevel(0)
    }

    /// Returns the raw level.
    pub fn get(self) -> (level: u32)
        ensures
            level == self.0,
    {
        self.0
    }
}

/// Use that a table makes of one blob file.
#[derive(Debug, PartialEq, Eq)]
pub struct TableBlobReference {
    /// Blob file that is referenced.
    pub file_id: u64,
    /// Value bytes that the table references in that file.
    pub referenced_bytes: u64,
    /// Records of the table that reference that file.
    pub referenced_record_count: u64,
    /// First record that references that file.
    pub smallest_internal_key: InternalKey,
    /// Last record that references that file.
    pub largest_internal_key: InternalKey,
}

/// Mathematical form of a [`TableBlobReference`].
pub struct BlobReference {
    /// See [`TableBlobReference`].
    pub file_id: u64,
    /// See [`TableBlobReference`].
    pub referenced_bytes: u64,
    /// See [`TableBlobReference`].
    pub referenced_record_count: u64,
    /// See [`TableBlobReference`].
    pub smallest_internal_key: RecordKey,
    /// See [`TableBlobReference`].
    pub largest_internal_key: RecordKey,
}

impl View for TableBlobReference {
    type V = BlobReference;

    open spec fn view(&self) -> BlobReference {
        BlobReference {
            file_id: self.file_id,
            referenced_bytes: self.referenced_bytes,
            referenced_record_count: self.referenced_record_count,
            smallest_internal_key: self.smallest_internal_key@,
            largest_internal_key: self.largest_internal_key@,
        }
    }
}

impl Clone for TableBlobReference {
    fn clone(&self) -> (result: TableBlobReference)
        ensures
            result@ == self@,
    {
        TableBlobReference {
            file_id: self.file_id,
            referenced_bytes: self.referenced_bytes,
            referenced_record_count: self.referenced_record_count,
            smallest_internal_key: self.smallest_internal_key.clone(),
            largest_internal_key: self.largest_internal_key.clone(),
        }
    }
}

/// Mathematical form of a list of blob references.
pub open spec fn references_of(list: Seq<TableBlobReference>) -> Seq<BlobReference> {
    Seq::new(list.len(), |i: int| list[i]@)
}

/// What a manifest records of one table.
#[derive(Debug, PartialEq, Eq)]
pub struct TableProperties {
    /// Identifier of the table file.
    pub id: TableId,
    /// Level of the table.
    pub level: TableLevel,
    /// First user key.
    pub smallest_user_key: Vec<u8>,
    /// Last user key.
    pub largest_user_key: Vec<u8>,
    /// Oldest commit.
    pub smallest_sequence: Sequence,
    /// Newest commit.
    pub largest_sequence: Sequence,
    /// Codec of the data blocks.
    pub codec: CodecId,
    /// Blob files that the table references.
    pub blob_file_ids: Vec<u64>,
    /// Use that the table makes of each blob file.
    pub blob_references: Vec<TableBlobReference>,
}

/// Mathematical form of [`TableProperties`].
pub struct TableSummary {
    /// See [`TableProperties`].
    pub id: TableId,
    /// See [`TableProperties`].
    pub level: TableLevel,
    /// See [`TableProperties`].
    pub smallest_user_key: Seq<u8>,
    /// See [`TableProperties`].
    pub largest_user_key: Seq<u8>,
    /// See [`TableProperties`].
    pub smallest_sequence: Sequence,
    /// See [`TableProperties`].
    pub largest_sequence: Sequence,
    /// See [`TableProperties`].
    pub codec: CodecId,
    /// See [`TableProperties`].
    pub blob_file_ids: Seq<u64>,
    /// See [`TableProperties`].
    pub blob_references: Seq<BlobReference>,
}

impl View for TableProperties {
    type V = TableSummary;

    open spec fn view(&self) -> TableSummary {
        TableSummary {
            id: self.id,
            level: self.level,
            smallest_user_key: self.smallest_user_key@,
            largest_user_key: self.largest_user_key@,
            smallest_sequence: self.smallest_sequence,
            largest_sequence: self.largest_sequence,
            codec: self.codec,
            blob_file_ids: self.blob_file_ids@,
            blob_references: references_of(self.blob_references@),
        }
    }
}

/// Copies a list of identifiers.
pub fn clone_ids(ids: &Vec<u64>) -> (copy: Vec<u64>)
    ensures
        copy@ == ids@,
{
    slice_to_vec(ids.as_slice())
}

fn clone_references(list: &Vec<TableBlobReference>) -> (copy: Vec<TableBlobReference>)
    ensures
        references_of(copy@) == references_of(list@),
{
    let mut copy: Vec<TableBlobReference> = Vec::with_capacity(list.len());
    let mut i: usize = 0;
    while i < list.len()
        invariant
            i <= list.len(),
            copy.len() == i,
            forall|j: int| 0 <= j < i ==> (#[trigger] copy@[j])@ == list@[j]@,
        decreases list.len() - i,
    {
        copy.push(list[i].clone());
        i += 1;
    }
    proof {
        assert(references_of(copy@) =~= references_of(list@));
    }
    copy
}

impl Clone for TableProperties {
    fn clone(&self) -> (result: TableProperties)
        ensures
            result@ == self@,
    {
        TableProperties {
            id: self.id,
            level: self.level,
            smallest_user_key: slice_to_vec(self.smallest_user_key.as_slice()),
            largest_user_key: slice_to_vec(self.largest_user_key.as_slice()),
            smallest_sequence: self.smallest_sequence,
            largest_sequence: self.largest_sequence,
            codec: self.codec,
            blob_file_ids: clone_ids(&self.blob_file_ids),
            blob_references: clone_references(&self.blob_references),
        }
    }
}

impl TableBlobReference {
    /// Tells whether two references say the same.
    pub fn same(&self, other: &TableBlobReference) -> (same: bool)
        ensures
            same == (self@ == other@),
    {
        self.file_id == other.file_id && self.referenced_bytes == other.referenced_bytes
            && self.referenced_record_count == other.referenced_record_count
            && self.smallest_internal_key.order(&other.smallest_internal_key)
            == bytes_order::KeyOrder::Equal && self.largest_internal_key.order(
            &other.largest_internal_key,
        ) == bytes_order::KeyOrder::Equal
    }
}

fn same_ids(left: &Vec<u64>, right: &Vec<u64>) -> (same: bool)
    ensures
        same == (left@ == right@),
{
    if left.len() != right.len() {
        return false;
    }
    let mut i: usize = 0;
    while i < left.len()
        invariant
            left.len() == right.len(),
            i <= left.len(),
            forall|j: int| 0 <= j < i ==> left@[j] == right@[j],
        decreases left.len() - i,
    {
        if left[i] != right[i] {
            return false;
        }
        i += 1;
    }
    proof {
        assert(left@ =~= right@);
    }
    true
}

fn same_references(left: &Vec<TableBlobReference>, right: &Vec<TableBlobReference>) -> (same: bool)
    ensures
        same == (references_of(left@) == references_of(right@)),
{
    if left.len() != right.len() {
        proof {
            assert(references_of(left@).len() != references_of(right@).len());
        }
        return false;
    }
    let mut i: usize = 0;
    while i < left.len()
        invariant
            left.len() == right.len(),
            i <= left.len(),
            forall|j: int| 0 <= j < i ==> references_of(left@)[j] == references_of(right@)[j],
        decreases left.len() - i,
    {
        if !left[i].same(&right[i]) {
            proof {
                assert(references_of(left@)[i as int] != references_of(right@)[i as int]);
            }
            return false;
        }
        i += 1;
    }
    proof {
        assert(references_of(left@) =~= references_of(right@));
    }
    true
}

impl TableProperties {
    /// Returns the blob files that the table references.
    pub fn blob_file_ids(&self) -> (ids: &Vec<u64>)
        ensures
            ids@ == self@.blob_file_ids,
    {
        &self.blob_file_ids
    }

    /// Tells whether two tables have the same properties.
    pub fn same(&self, other: &TableProperties) -> (same: bool)
        ensures
            same == (self@ == other@),
    {
        self.id == other.id && self.level == other.level && bytes_order::bytes_equal(
            self.smallest_user_key.as_slice(),
            other.smallest_user_key.as_slice(),
        ) && bytes_order::bytes_equal(
            self.largest_user_key.as_slice(),
            other.largest_user_key.as_slice(),
        ) && self.smallest_sequence == other.smallest_sequence && self.largest_sequence
            == other.largest_sequence && self.codec == other.codec && same_ids(
            &self.blob_file_ids,
            &other.blob_file_ids,
        ) && same_references(&self.blob_references, &other.blob_references)
    }
}

impl TableSummary {
    /// Whether a record lies inside the key and commit bounds of the table.
    pub open spec fn admits(self, record: Record) -> bool {
        &&& bytes_order::bytes_le(self.smallest_user_key, record.key.user_key)
        &&& bytes_order::bytes_le(record.key.user_key, self.largest_user_key)
        &&& self.smallest_sequence.0 <= record.key.sequence.0 <= self.largest_sequence.0
    }

    /// Whether `key` lies inside the key bounds of the table.
    pub open spec fn spans(self, key: Seq<u8>) -> bool {
        bytes_order::bytes_le(self.smallest_user_key, key) && bytes_order::bytes_le(
            key,
            self.largest_user_key,
        )
    }
}

/// An immutable table with its decoded contents.
#[derive(Debug)]
pub struct Table {
    /// What the manifest records of the table.
    pub properties: TableProperties,
    /// Point records.
    pub records: RecordRun,
    /// Range deletions.
    pub range_tombstones: Vec<RangeTombstone>,
}

impl Table {
    /// Whether the records are sorted and inside the bounds of the properties.
    pub open spec fn wf(&self) -> bool {
        &&& self.records.wf()
        &&& forall|i: int|
            0 <= i < self.records@.len() ==> self.properties@.admits(#[trigger] self.records@[i])
    }

    /// The range deletions of the table.
    pub open spec fn tombstones(&self) -> Seq<Tombstone> {
        range_tombstone::tombstones_of(self.range_tombstones@)
    }

    /// Puts a table together; records outside the bounds of its properties are
    /// corruption.
    pub fn new(
        properties: TableProperties,
        records: RecordRun,
        range_tombstones: Vec<RangeTombstone>,
    ) -> (result: Result<Table>)
        requires
            records.wf(),
        ensures
            match result {
                Ok(table) => {
                    &&& table.wf()
                    &&& table.properties == properties
                    &&& table.records == records
                    &&& table.range_tombstones == range_tombstones
                },
                Err(error) => {
                    &&& exists|i: int|
                        0 <= i < records@.len() && !properties@.admits(#[trigger] records@[i])
                    &&& error.says(
                        ErrorKind::Corruption,
                        "table record is outside its table properties"@,
                    )
                },
            },
    {
        let mut i: usize = 0;
        while i < records.len()
            invariant
                i <= records@.len(),
                forall|j: int| 0 <= j < i ==> properties@.admits(#[trigger] records@[j]),
            decreases records@.len() - i,
        {
            let entry = records.get(i);
            if !properties.admits_entry(entry) {
                return Err(Error::corruption("table record is outside its table properties"));
            }
            i += 1;
        }
        Ok(Table { properties, records, range_tombstones })
    }

    /// Returns what the manifest records of the table.
    pub fn properties(&self) -> (properties: &TableProperties)
        ensures
            *properties == self.properties,
    {
        &self.properties
    }

    /// Finds the newest record of `key` that a read at `read_sequence` sees.
    pub fn newest_visible_point_record(&self, key: &[u8], read_sequence: Sequence) -> (found:
        Option<&MemtableEntry>)
        requires
            self.wf(),
        ensures
            match found {
                Some(entry) => {
                    &&& self.records@.contains(entry@)
                    &&& entry@.visible_to(key@, read_sequence)
                    &&& forall|record: Record| #[trigger]
                        self.records@.contains(record) && record.visible_to(key@, read_sequence)
                            ==> !record.key.lt(entry@.key)
                },
                None => forall|record: Record| #[trigger]
                    self.records@.contains(record) ==> !record.visible_to(key@, read_sequence),
            },
    {
        match self.records.newest_visible(key, read_sequence) {
            Some(index) => {
                proof {
                    memtable::first_visible_is_newest(
                        self.records@,
                        index as int,
                        key@,
                        read_sequence,
                    );
                }
                Some(self.records.get(index))
            },
            None => None,
        }
    }

    /// Tells whether a range deletion of the table covers the point.
    pub fn range_tombstone_covers_visible_point(
        &self,
        key: &[u8],
        point_sequence: Sequence,
        point_batch_index: u32,
        read_sequence: Sequence,
    ) -> (covered: bool)
        ensures
            covered == range_tombstone::any_covers(
                self.tombstones(),
                key@,
                point_sequence,
                point_batch_index,
                read_sequence,
            ),
    {
        range_tombstone::list_covers(
            &self.range_tombstones,
            key,
            point_sequence,
            point_batch_index,
            read_sequence,
        )
    }

    /// Returns copies of the range deletions that overlap `range`, in order.
    pub fn range_tombstones_overlapping_range(&self, range: &KeyRange) -> (found: Vec<
        RangeTombstone,
    >)
        ensures
            range_tombstone::tombstones_of(found@) == self.tombstones().filter(
                |t: Tombstone| t.range.overlaps(range@),
            ),
    {
        range_tombstone::overlapping(&self.range_tombstones, range)
    }

    /// Tells whether a record of the table starts with `prefix`.
    pub fn may_contain_prefix(&self, prefix: &[u8]) -> (found: bool)
        requires
            self.wf(),
        ensures
            found == exists|i: int|
                0 <= i < self.records@.len() && bytes_order::has_prefix(
                    (#[trigger] self.records@[i]).key.user_key,
                    prefix@,
                ),
    {
        let index: usize = self.records.user_start(prefix);
        if index == self.records.len() {
            assert forall|i: int| 0 <= i < self.records@.len() implies !bytes_order::has_prefix(
                (#[trigger] self.records@[i]).key.user_key,
                prefix@,
            ) by {
                if bytes_order::has_prefix(self.records@[i].key.user_key, prefix@) {
                    bytes_order::prefixed_key_not_before_prefix(
                        self.records@[i].key.user_key,
                        prefix@,
                    );
                }
            }
            return false;
        }
        let found: bool = bytes_order::starts_with(self.records.get(index).key.user_key(), prefix);
        if !found {
            assert forall|i: int| 0 <= i < self.records@.len() implies !bytes_order::has_prefix(
                (#[trigger] self.records@[i]).key.user_key,
                prefix@,
            ) by {
                if bytes_order::has_prefix(self.records@[i].key.user_key, prefix@) {
                    bytes_order::prefixed_key_not_before_prefix(
                        self.records@[i].key.user_key,
                        prefix@,
                    );
                    if i != index {
                        assert(self.records@[index as int].key.lt(self.records@[i].key));
                        bytes_order::keys_before_prefixed_key_share_prefix(
                            self.records@[index as int].key.user_key,
                            self.records@[i].key.user_key,
                            prefix@,
                        );
                    }
                }
            }
        }
        found
    }
}

impl TableProperties {
    /// Tells whether `key` lies inside the key bounds of the table.
    pub fn spans_key(&self, key: &[u8]) -> (spans: bool)
        ensures
            spans == self@.spans(key@),
    {
        proof {
            bytes_order::bytes_order_facts();
        }
        !bytes_order::bytes_before(key, self.smallest_user_key.as_slice())
            && !bytes_order::bytes_before(self.largest_user_key.as_slice(), key)
    }

    fn admits_entry(&self, entry: &MemtableEntry) -> (admits: bool)
        ensures
            admits == self@.admits(entry@),
    {
        self.spans_key(entry.key.user_key()) && self.smallest_sequence.get()
            <= entry.key.sequence().get() && entry.key.sequence().get()
            <= self.largest_sequence.get()
    }
}

} // verus!
