//! Sorted in-memory records.
use vstd::prelude::*;

use crate::blob;
use crate::blob::{ValueRef, ValueView};
use crate::bytes_order;
use crate::bytes_order::KeyOrder;
use crate::internal_key;
use crate::internal_key::{InternalKey, RecordKey};
use crate::types::Sequence;

verus! {

/// Life stage of a memtable.
#[derive(Debug, Clone, Copy, PartialEq, Eq, Structural)]
pub enum MemtableState {
    /// The memtable takes writes.
    Active,
    /// The memtable waits to be flushed.
    Immutable,
}

/// One stored record: its key and, for a put, its value.
#[derive(Debug, PartialEq, Eq)]
pub struct MemtableEntry {
    /// Key of the record.
    pub key: InternalKey,
    /// Value of the record, if it has one.
    pub value: Option<ValueRef>,
}

/// Mathematical form of a [`MemtableEntry`].
pub struct Record {
    /// Key of the record.
    pub key: RecordKey,
    /// Value of the record, if it has one.
    pub value: Option<ValueView>,
}

impl View for MemtableEntry {
    type V = Record;

    open spec fn view(&self) -> Record {
        Record { key: self.key@, value: blob::value_view(self.value) }
    }
}

impl Clone for MemtableEntry {
    fn clone(&self) -> (result: MemtableEntry)
        ensures
            result@ == self@,
    {
        MemtableEntry { key: self.key.clone(), value: blob::clone_value(&self.value) }
    }
}

impl Record {
    /// Whether a read of `key` at `read_sequence` sees this record.
    pub open spec fn visible_to(self, key: Seq<u8>, read_sequence: Sequence) -> bool {
        self.key.user_key == key && self.key.sequence.0 <= read_sequence.0
    }

    /// Bytes this record is charged with.
    pub open spec fn charged_bytes(self) -> int {
        let value_len: int = match self.value {
            Some(value) => value.byte_len() as int,
            None => 0,
        };
        let total: int = self.key.user_key.len() + value_len + 16;
        if total <= u64::MAX {
            total
        } else {
            u64::MAX as int
        }
    }
}

/// Mathematical form of a list of records.
pub open spec fn records_of(entries: Seq<MemtableEntry>) -> Seq<Record> {
    Seq::new(entries.len(), |i: int| entries[i]@)
}

/// Whether records stand in strictly increasing key order.
pub open spec fn is_sorted(records: Seq<Record>) -> bool {
    forall|i: int, j: int|
        0 <= i < j < records.len() ==> (#[trigger] records[i]).key.lt((#[trigger] records[j]).key)
}

/// Sum of the bytes that a list of records is charged with.
pub open spec fn total_bytes(records: Seq<Record>) -> int
    decreases records.len(),
{
    if records.len() == 0 {
        0
    } else {
        total_bytes(records.drop_last()) + records.last().charged_bytes()
    }
}

proof fn total_bytes_positive(records: Seq<Record>)
    ensures
        total_bytes(records) >= 16 * records.len(),
    decreases records.len(),
{
    if records.len() > 0 {
        total_bytes_positive(records.drop_last());
    }
}

proof fn total_bytes_concat(a: Seq<Record>, b: Seq<Record>)
    ensures
        total_bytes(a + b) == total_bytes(a) + total_bytes(b),
    decreases b.len(),
{
    if b.len() == 0 {
        assert(a + b =~= a);
    } else {
        total_bytes_concat(a, b.drop_last());
        assert((a + b).drop_last() =~= a + b.drop_last());
    }
}

proof fn total_bytes_split(records: Seq<Record>, i: int)
    requires
        0 <= i < records.len(),
    ensures
        total_bytes(records) == total_bytes(records.subrange(0, i)) + records[i].charged_bytes()
            + total_bytes(records.subrange(i + 1, records.len() as int)),
{
    let head = records.subrange(0, i);
    let tail = records.subrange(i + 1, records.len() as int);
    let one = seq![records[i]];
    assert(records =~= head + (one + tail));
    total_bytes_concat(head, one + tail);
    total_bytes_concat(one, tail);
    assert(one.drop_last() =~= Seq::<Record>::empty());
    assert(total_bytes(one.drop_last()) == 0);
    assert(total_bytes(one) == records[i].charged_bytes());
}

proof fn total_bytes_insert(records: Seq<Record>, i: int, record: Record)
    requires
        0 <= i <= records.len(),
    ensures
        total_bytes(records.insert(i, record)) == total_bytes(records) + record.charged_bytes(),
{
    let after = records.insert(i, record);
    total_bytes_split(after, i);
    assert(after.subrange(0, i) =~= records.subrange(0, i));
    assert(after.subrange(i + 1, after.len() as int) =~= records.subrange(
        i,
        records.len() as int,
    ));
    assert(records =~= records.subrange(0, i) + records.subrange(i, records.len() as int));
    total_bytes_concat(records.subrange(0, i), records.subrange(i, records.len() as int));
}

proof fn total_bytes_update(records: Seq<Record>, i: int, record: Record)
    requires
        0 <= i < records.len(),
    ensures
        total_bytes(records.update(i, record)) == total_bytes(records)
            - records[i].charged_bytes() + record.charged_bytes(),
{
    let after = records.update(i, record);
    total_bytes_split(after, i);
    total_bytes_split(records, i);
    assert(after.subrange(0, i) =~= records.subrange(0, i));
    assert(after.subrange(i + 1, after.len() as int) =~= records.subrange(
        i + 1,
        records.len() as int,
    ));
}

/// In sorted records, the first record that a read sees is the newest one it sees.
pub proof fn first_visible_is_newest(
    records: Seq<Record>,
    index: int,
    key: Seq<u8>,
    read_sequence: Sequence,
)
    requires
        is_sorted(records),
        0 <= index < records.len(),
        records[index].visible_to(key, read_sequence),
        forall|i: int| 0 <= i < index ==> !(#[trigger] records[i]).visible_to(key, read_sequence),
    ensures
        records.contains(records[index]),
        forall|record: Record| #[trigger]
            records.contains(record) && record.visible_to(key, read_sequence) ==> !record.key.lt(
                records[index].key,
            ),
{
    internal_key::record_order_facts();
    assert forall|record: Record| #[trigger]
        records.contains(record) && record.visible_to(key, read_sequence) implies !record.key.lt(
        records[index].key,
    ) by {
        let i = choose|i: int| 0 <= i < records.len() && records[i] == record;
        if i > index {
            assert(records[index].key.lt(records[i].key));
        }
    }
}

/// Records in strictly increasing key order.
#[derive(Debug)]
pub struct RecordRun {
    entries: Vec<MemtableEntry>,
}

impl View for RecordRun {
    type V = Seq<Record>;

    closed spec fn view(&self) -> Seq<Record> {
        records_of(self.entries@)
    }
}

impl Clone for RecordRun {
    fn clone(&self) -> (result: RecordRun)
        ensures
            result@ == self@,
    {
        let mut entries: Vec<MemtableEntry> = Vec::with_capacity(self.entries.len());
        let mut i: usize = 0;
        while i < self.entries.len()
            invariant
                i <= self.entries.len(),
                entries.len() == i,
                forall|j: int| 0 <= j < i ==> (#[trigger] entries@[j])@ == self.entries@[j]@,
            decreases self.entries.len() - i,
        {
            entries.push(self.entries[i].clone());
            i += 1;
        }
        let result = RecordRun { entries };
        proof {
            assert(result@ =~= self@);
        }
        result
    }
}

/// Copies the records of a run.
pub fn clone_entries(run: &RecordRun) -> (entries: Vec<MemtableEntry>)
    ensures
        records_of(entries@) == run@,
{
    let mut entries: Vec<MemtableEntry> = Vec::with_capacity(run.len());
    let mut i: usize = 0;
    while i < run.len()
        invariant
            i <= run@.len(),
            entries@.len() == i,
            forall|j: int| 0 <= j < i ==> (#[trigger] entries@[j])@ == run@[j],
        decreases run@.len() - i,
    {
        entries.push(run.get(i).clone());
        i += 1;
    }
    proof {
        assert(records_of(entries@) =~= run@);
    }
    entries
}

impl RecordRun {
    /// Whether the records are in strictly increasing key order.
    pub open spec fn wf(&self) -> bool {
        is_sorted(self@)
    }

    /// Builds an empty run.
    pub fn new() -> (run: RecordRun)
        ensures
            run.wf(),
            run@.len() == 0,
    {
        RecordRun { entries: Vec::new() }
    }

    /// Returns the number of records.
    pub fn len(&self) -> (len: usize)
        ensures
            len == self@.len(),
    {
        self.entries.len()
    }

    /// Tells whether there is no record.
    pub fn is_empty(&self) -> (empty: bool)
        ensures
            empty == (self@.len() == 0),
    {
        self.entries.len() == 0
    }

    /// Returns the record at `index`.
    pub fn get(&self, index: usize) -> (entry: &MemtableEntry)
        requires
            index < self@.len(),
        ensures
            entry@ == self@[index as int],
    {
        &self.entries[index]
    }

    /// Returns the number of records that come before `key`.
    pub fn lower_bound(&self, key: &InternalKey) -> (index: usize)
        requires
            self.wf(),
        ensures
            index <= self@.len(),
            forall|i: int| 0 <= i < index ==> (#[trigger] self@[i]).key.lt(key@),
            forall|i: int| index <= i < self@.len() ==> !(#[trigger] self@[i]).key.lt(key@),
    {
        proof {
            internal_key::record_order_facts();
        }
        let mut low: usize = 0;
        let mut high: usize = self.entries.len();
        while low < high
            invariant
                low <= high <= self@.len(),
                self@.len() == self.entries.len(),
                self.wf(),
                forall|a: RecordKey, b: RecordKey, c: RecordKey| #[trigger]
                    a.lt(b) && #[trigger] b.lt(c) ==> a.lt(c),
                forall|i: int| 0 <= i < low ==> (#[trigger] self@[i]).key.lt(key@),
                forall|i: int| high <= i < self@.len() ==> !(#[trigger] self@[i]).key.lt(key@),
            decreases high - low,
        {
            let middle: usize = low + (high - low) / 2;
            assert(self.entries@[middle as int]@ == self@[middle as int]);
            if self.entries[middle].key.comes_before(key) {
                low = middle + 1;
            } else {
                high = middle;
            }
        }
        low
    }

    /// Returns the number of records whose user key comes before `key`.
    pub fn user_start(&self, key: &[u8]) -> (index: usize)
        requires
            self.wf(),
        ensures
            index <= self@.len(),
            forall|i: int|
                0 <= i < index ==> bytes_order::bytes_lt((#[trigger] self@[i]).key.user_key, key@),
            forall|i: int|
                index <= i < self@.len() ==> !bytes_order::bytes_lt(
                    (#[trigger] self@[i]).key.user_key,
                    key@,
                ),
    {
        proof {
            bytes_order::bytes_order_facts();
        }
        let mut low: usize = 0;
        let mut high: usize = self.entries.len();
        while low < high
            invariant
                low <= high <= self@.len(),
                self@.len() == self.entries.len(),
                self.wf(),
                forall|a: Seq<u8>, b: Seq<u8>, c: Seq<u8>| #[trigger]
                    bytes_order::bytes_lt(a, b) && #[trigger] bytes_order::bytes_lt(b, c)
                        ==> bytes_order::bytes_lt(a, c),
                forall|i: int|
                    0 <= i < low ==> bytes_order::bytes_lt(
                        (#[trigger] self@[i]).key.user_key,
                        key@,
                    ),
                forall|i: int|
                    high <= i < self@.len() ==> !bytes_order::bytes_lt(
                        (#[trigger] self@[i]).key.user_key,
                        key@,
                    ),
            decreases high - low,
        {
            let middle: usize = low + (high - low) / 2;
            assert(self.entries@[middle as int]@ == self@[middle as int]);
            if bytes_order::bytes_before(self.entries[middle].key.user_key(), key) {
                low = middle + 1;
            } else {
                high = middle;
            }
        }
        low
    }

    /// Returns the index just past the records of the user key at `start`.
    pub fn user_end(&self, start: usize) -> (end: usize)
        requires
            self.wf(),
            start < self@.len(),
        ensures
            start < end <= self@.len(),
            forall|i: int|
                start <= i < end ==> (#[trigger] self@[i]).key.user_key
                    == self@[start as int].key.user_key,
            forall|i: int|
                end <= i < self@.len() ==> (#[trigger] self@[i]).key.user_key
                    != self@[start as int].key.user_key,
    {
        assert(self@.len() == self.entries.len());
        let mut end: usize = start + 1;
        while end < self.entries.len()
            invariant
                start < end <= self@.len(),
                self@.len() == self.entries.len(),
                self.wf(),
                forall|i: int|
                    start <= i < end ==> (#[trigger] self@[i]).key.user_key
                        == self@[start as int].key.user_key,
            decreases self@.len() - end,
        {
            assert(self.entries@[end as int]@ == self@[end as int]);
            assert(self.entries@[start as int]@ == self@[start as int]);
            if !bytes_order::bytes_equal(
                self.entries[end].key.user_key(),
                self.entries[start].key.user_key(),
            ) {
                proof {
                    self.later_users_differ(start as int, end as int);
                }
                return end;
            }
            end += 1;
        }
        end
    }

    proof fn later_users_differ(&self, start: int, end: int)
        requires
            self.wf(),
            0 <= start < end < self@.len(),
            self@[end].key.user_key != self@[start].key.user_key,
        ensures
            forall|i: int|
                end <= i < self@.len() ==> (#[trigger] self@[i]).key.user_key
                    != self@[start].key.user_key,
    {
        bytes_order::bytes_order_facts();
        assert(self@[start].key.lt(self@[end].key));
        assert forall|i: int| end <= i < self@.len() implies (#[trigger] self@[i]).key.user_key
            != self@[start].key.user_key by {
            if end < i {
                assert(self@[end].key.lt(self@[i].key));
            }
        }
    }

    /// Finds the newest record of `key` that a read at `read_sequence` sees.
    pub fn newest_visible(&self, key: &[u8], read_sequence: Sequence) -> (found: Option<usize>)
        requires
            self.wf(),
        ensures
            match found {
                Some(index) => {
                    &&& index < self@.len()
                    &&& self@[index as int].visible_to(key@, read_sequence)
                    &&& forall|i: int|
                        0 <= i < index ==> !(#[trigger] self@[i]).visible_to(key@, read_sequence)
                },
                None => forall|i: int|
                    0 <= i < self@.len() ==> !(#[trigger] self@[i]).visible_to(
                        key@,
                        read_sequence,
                    ),
            },
    {
        proof {
            bytes_order::bytes_order_facts();
        }
        let mut index: usize = self.user_start(key);
        while index < self.entries.len()
            invariant
                index <= self@.len(),
                self@.len() == self.entries.len(),
                self.wf(),
                forall|i: int|
                    0 <= i < index ==> !(#[trigger] self@[i]).visible_to(key@, read_sequence),
                forall|i: int|
                    index <= i < self@.len() ==> !bytes_order::bytes_lt(
                        (#[trigger] self@[i]).key.user_key,
                        key@,
                    ),
                forall|a: Seq<u8>, b: Seq<u8>| #[trigger]
                    bytes_order::bytes_lt(a, b) || bytes_order::bytes_lt(b, a) || a == b,
                forall|a: Seq<u8>| !#[trigger] bytes_order::bytes_lt(a, a),
                forall|a: Seq<u8>, b: Seq<u8>, c: Seq<u8>| #[trigger]
                    bytes_order::bytes_lt(a, b) && #[trigger] bytes_order::bytes_lt(b, c)
                        ==> bytes_order::bytes_lt(a, c),
            decreases self@.len() - index,
        {
            let entry = &self.entries[index];
            assert(entry@ == self@[index as int]);
            if !bytes_order::bytes_equal(entry.key.user_key(), key) {
                assert forall|i: int| index <= i < self@.len() implies !(#[trigger]
                self@[i]).visible_to(key@, read_sequence) by {
                    if index < i {
                        assert(self@[index as int].key.lt(self@[i].key));
                    }
                }
                return None;
            }
            if entry.key.sequence().get() <= read_sequence.get() {
                return Some(index);
            }
            index += 1;
        }
        None
    }

    /// Adds a record, replacing the record of the same key, and returns the value
    /// that was replaced.
    pub fn insert(&mut self, entry: MemtableEntry) -> (replaced: Option<MemtableEntry>)
        requires
            old(self).wf(),
        ensures
            final(self).wf(),
            final(self)@.contains(entry@),
            forall|record: Record| #[trigger]
                final(self)@.contains(record) <==> record == entry@ || (old(self)@.contains(record)
                    && record.key != entry@.key),
            total_bytes(final(self)@) == total_bytes(old(self)@) + entry@.charged_bytes() - (
            match replaced {
                Some(previous) => previous@.charged_bytes(),
                None => 0,
            }),
            match replaced {
                Some(previous) => {
                    &&& previous@.key == entry@.key
                    &&& old(self)@.contains(previous@)
                    &&& final(self)@.len() == old(self)@.len()
                },
                None => {
                    &&& forall|record: Record| #[trigger]
                        old(self)@.contains(record) ==> record.key != entry@.key
                    &&& final(self)@.len() == old(self)@.len() + 1
                },
            },
    {
        let index: usize = self.lower_bound(&entry.key);
        let ghost before = self@;
        let ghost added = entry@;
        proof {
            internal_key::record_order_facts();
        }
        if index < self.entries.len() {
            assert(self.entries@[index as int]@ == self@[index as int]);
            let same: bool = match self.entries[index].key.order(&entry.key) {
                KeyOrder::Equal => true,
                _ => false,
            };
            if same {
                let mut slot: MemtableEntry = entry;
                std::mem::swap(&mut self.entries[index], &mut slot);
                proof {
                    assert(self@ =~= before.update(index as int, added));
                    assert(slot@ == before[index as int]);
                    total_bytes_update(before, index as int, added);
                    assert(self@[index as int] == added);
                    assert forall|record: Record| #[trigger]
                        self@.contains(record) <==> record == added || (before.contains(record)
                            && record.key != added.key) by {
                        if self@.contains(record) {
                            let i = choose|i: int| 0 <= i < self@.len() && self@[i] == record;
                            if i != index {
                                assert(before[i] == record);
                                if i < index {
                                    assert(before[i].key.lt(before[index as int].key));
                                } else {
                                    assert(before[index as int].key.lt(before[i].key));
                                }
                            }
                        }
                        if before.contains(record) && record.key != added.key {
                            let i = choose|i: int| 0 <= i < before.len() && before[i] == record;
                            assert(self@[i] == record);
                        }
                    }
                }
                return Some(slot);
            }
        }
        self.entries.insert(index, entry);
        proof {
            assert(self@ =~= before.insert(index as int, added));
            total_bytes_insert(before, index as int, added);
            assert(self@[index as int] == added);
            assert forall|i: int| index <= i < before.len() implies added.key.lt(
                (#[trigger] before[i]).key,
            ) by {
                if index < i {
                    assert(before[index as int].key.lt(before[i].key));
                }
            }
            assert forall|record: Record| #[trigger]
                self@.contains(record) <==> record == added || (before.contains(record)
                    && record.key != added.key) by {
                if self@.contains(record) {
                    let i = choose|i: int| 0 <= i < self@.len() && self@[i] == record;
                    if i < index {
                        assert(before[i] == record);
                    } else if i > index {
                        assert(before[i - 1] == record);
                    }
                }
                if before.contains(record) {
                    let i = choose|i: int| 0 <= i < before.len() && before[i] == record;
                    if i < index {
                        assert(self@[i] == record);
                    } else {
                        assert(self@[i + 1] == record);
                    }
                }
            }
            assert forall|record: Record| #[trigger] before.contains(record) implies record.key
                != added.key by {
                let i = choose|i: int| 0 <= i < before.len() && before[i] == record;
                if i < index {
                    assert(before[i].key.lt(added.key));
                } else {
                    assert(added.key.lt(before[i].key));
                }
            }
        }
        None
    }
}

/// Sorted records that take inserts, with a running estimate of their size.
#[derive(Debug)]
pub struct Memtable {
    run: RecordRun,
    estimated_bytes: u64,
}

impl View for Memtable {
    type V = Seq<Record>;

    closed spec fn view(&self) -> Seq<Record> {
        self.run@
    }
}

impl Clone for Memtable {
    fn clone(&self) -> (result: Memtable)
        ensures
            result@ == self@,
            self.wf() ==> result.wf(),
            result.size() == self.size(),
    {
        Memtable { run: self.run.clone(), estimated_bytes: self.estimated_bytes }
    }
}

impl Memtable {
    /// Whether the records are sorted and the size estimate is theirs.
    pub closed spec fn wf(&self) -> bool {
        &&& self.run.wf()
        &&& self.estimated_bytes as int == total_bytes(self@) % 0x1_0000_0000_0000_0000
    }

    /// The size estimate.
    pub closed spec fn size(&self) -> u64 {
        self.estimated_bytes
    }

    /// The records of a well-formed memtable are sorted, and its size estimate is
    /// the sum of what each record is charged with, reduced to 64 bits.
    pub proof fn wf_facts(&self)
        requires
            self.wf(),
        ensures
            is_sorted(self@),
            self.size() as int == total_bytes(self@) % 0x1_0000_0000_0000_0000,
    {
    }

    /// A memtable with records has a size estimate other than zero, unless its records
    /// are charged with more than 64 bits can count.
    pub proof fn records_are_charged(&self)
        requires
            self.wf(),
            self@.len() > 0,
            total_bytes(self@) < 0x1_0000_0000_0000_0000,
        ensures
            self.size() > 0,
    {
        total_bytes_positive(self@);
    }

    /// Builds an empty memtable.
    pub fn new() -> (memtable: Memtable)
        ensures
            memtable.wf(),
            memtable@.len() == 0,
            memtable.size() == 0,
    {
        Memtable { run: RecordRun::new(), estimated_bytes: 0 }
    }

    /// Adds a record, replacing the record of the same key.
    pub fn insert(&mut self, key: InternalKey, value: Option<ValueRef>)
        requires
            old(self).wf(),
        ensures
            final(self).wf(),
            final(self)@.contains((Record { key: key@, value: blob::value_view(value) })),
            forall|record: Record| #[trigger]
                final(self)@.contains(record) <==> record == (Record {
                    key: key@,
                    value: blob::value_view(value),
                }) || (old(self)@.contains(record) && record.key != key@),
    {
        let entry = MemtableEntry { key, value };
        let added: u64 = entry_bytes(&entry);
        let replaced: Option<MemtableEntry> = self.run.insert(entry);
        if let Some(previous) = replaced {
            self.estimated_bytes = self.estimated_bytes.wrapping_sub(entry_bytes(&previous));
        }
        self.estimated_bytes = self.estimated_bytes.wrapping_add(added);
    }

    /// Tells whether there is no record.
    pub fn is_empty(&self) -> (empty: bool)
        ensures
            empty == (self@.len() == 0),
    {
        self.run.is_empty()
    }

    /// Returns the size estimate.
    pub fn estimated_bytes(&self) -> (bytes: u64)
        ensures
            bytes == self.size(),
    {
        self.estimated_bytes
    }

    /// Returns the records.
    pub fn read_entries(&self) -> (entries: &RecordRun)
        ensures
            entries@ == self@,
            self.wf() ==> entries.wf(),
    {
        &self.run
    }
}

impl Default for Memtable {
    fn default() -> (memtable: Memtable)
        ensures
            memtable.wf(),
            memtable@.len() == 0,
            memtable.size() == 0,
    {
        Memtable::new()
    }
}

/// Returns the bytes a record is charged with.
pub fn entry_bytes(entry: &MemtableEntry) -> (bytes: u64)
    ensures
        bytes == entry@.charged_bytes(),
{
    let value_len: u64 = match &entry.value {
        Some(value) => value.len(),
        None => 0,
    };
    usize_to_u64_saturating(entry.key.user_key().len()).saturating_add(value_len).saturating_add(16)
}

/// Widens a length.
pub fn usize_to_u64_saturating(value: usize) -> (result: u64)
    ensures
        result == value,
{
    value as u64
}

/// A record is charged for the bytes of its key and of its value, wherever the value is stored, and
/// for a fixed share; records are charged one by one.
pub proof fn records_are_charged_for_their_bytes(
    record: Record,
    bytes: Seq<u8>,
    place: blob::BlobIndex,
    a: Seq<Record>,
    b: Seq<Record>,
)
    requires
        record.key.user_key.len() + bytes.len() + place.value_len + 16 <= u64::MAX,
    ensures
        record.value is None ==> record.charged_bytes() == record.key.user_key.len() + 16,
        record.value == Some(ValueView::Inline(bytes)) ==> record.charged_bytes()
            == record.key.user_key.len() + bytes.len() + 16,
        record.value == Some(ValueView::BlobIndex(place)) ==> record.charged_bytes()
            == record.key.user_key.len() + place.value_len + 16,
        record.value == Some(ValueView::Blob(place)) ==> record.charged_bytes()
            == record.key.user_key.len() + place.value_len + 16,
        total_bytes(Seq::empty()) == 0,
        total_bytes(seq![record]) == record.charged_bytes(),
        total_bytes(a + b) == total_bytes(a) + total_bytes(b),
{
    total_bytes_concat(a, b);
    assert(seq![record].drop_last() =~= Seq::<Record>::empty());
    assert(total_bytes(seq![record].drop_last()) == 0);
    assert(seq![record].last() == record);
}

/// A read sees exactly the records of its key that are no newer than it.
pub proof fn reads_see_what_was_committed(record: Record, key: Seq<u8>, read_sequence: Sequence)
    ensures
        record.visible_to(record.key.user_key, record.key.sequence),
        record.key.sequence.0 > read_sequence.0 ==> !record.visible_to(key, read_sequence),
        record.key.user_key != key ==> !record.visible_to(key, read_sequence),
        record.key.user_key == key && record.key.sequence.0 <= read_sequence.0
            ==> record.visible_to(key, read_sequence),
{
}

} // verus!
