//! Whether keys changed after a transaction read them.
use vstd::prelude::*;

use crate::bytes_order;
use crate::lsm::isolation;
use crate::lsm::read;
use crate::lsm::read::LsmPointReadSnapshot;
use crate::lsm::sources::MemorySources;
use crate::lsm::tree;
use crate::lsm::tree::LsmTree;
use crate::lsm::version::LsmVersion;
use crate::memtable::{Record, RecordRun};
use crate::range_tombstone;
use crate::range_tombstone::{RangeTombstoneIndex, Tombstone};
use crate::table::Table;
use crate::types::{KeyRange, RangeView, Sequence};
use crate::write_batch::Operation;

verus! {

/// The sources that one conflict test works on.
pub type ConflictSourceSnapshot = LsmPointReadSnapshot;

/// Whether a record of `key` is later than `read_sequence`.
pub open spec fn writes_key_after(record: Record, key: Seq<u8>, read_sequence: Sequence) -> bool {
    record.key.user_key == key && record.key.sequence.0 > read_sequence.0
}

/// Whether a record inside `range` is later than `read_sequence`.
pub open spec fn writes_range_after(
    record: Record,
    range: RangeView,
    read_sequence: Sequence,
) -> bool {
    range.contains(record.key.user_key) && record.key.sequence.0 > read_sequence.0
}

/// Whether a range deletion of `key` is later than `read_sequence`.
pub open spec fn deletes_key_after(
    tombstone: Tombstone,
    key: Seq<u8>,
    read_sequence: Sequence,
) -> bool {
    tombstone.range.contains(key) && tombstone.sequence.0 > read_sequence.0
}

/// Whether a range deletion that overlaps `range` is later than `read_sequence`.
pub open spec fn deletes_range_after(
    tombstone: Tombstone,
    range: RangeView,
    read_sequence: Sequence,
) -> bool {
    tombstone.range.overlaps(range) && tombstone.sequence.0 > read_sequence.0
}

impl LsmPointReadSnapshot {
    /// Whether the snapshot holds the range deletion.
    pub open spec fn has_tombstone(&self, tombstone: Tombstone) -> bool {
        self.memory.has_tombstone(tombstone) || self.version.has_tombstone(tombstone)
    }

    /// Whether the snapshot holds a change of `key` later than `read_sequence`.
    pub open spec fn key_changed_after(&self, key: Seq<u8>, read_sequence: Sequence) -> bool {
        ||| exists|record: Record| #[trigger]
            self.records().contains(record) && writes_key_after(record, key, read_sequence)
        ||| exists|tombstone: Tombstone| #[trigger]
            self.has_tombstone(tombstone) && deletes_key_after(tombstone, key, read_sequence)
    }

    /// Whether the snapshot holds a change inside `range` later than `read_sequence`.
    pub open spec fn range_changed_after(&self, range: RangeView, read_sequence: Sequence) -> bool {
        ||| exists|record: Record| #[trigger]
            self.records().contains(record) && writes_range_after(record, range, read_sequence)
        ||| exists|tombstone: Tombstone| #[trigger]
            self.has_tombstone(tombstone) && deletes_range_after(tombstone, range, read_sequence)
    }
}

fn run_writes_key_after(run: &RecordRun, key: &[u8], read_sequence: Sequence) -> (found: bool)
    requires
        run.wf(),
    ensures
        found <==> exists|record: Record| #[trigger]
            run@.contains(record) && writes_key_after(record, key@, read_sequence),
{
    proof {
        bytes_order::bytes_order_facts();
    }
    let mut i: usize = run.user_start(key);
    while i < run.len() && bytes_order::bytes_equal(run.get(i).key.user_key(), key)
        invariant
            run.wf(),
            i <= run@.len(),
            forall|j: int|
                0 <= j < i ==> !writes_key_after(#[trigger] run@[j], key@, read_sequence),
            forall|j: int|
                i <= j < run@.len() ==> !bytes_order::bytes_lt(
                    (#[trigger] run@[j]).key.user_key,
                    key@,
                ),
        decreases run@.len() - i,
    {
        if run.get(i).key.sequence().get() > read_sequence.get() {
            proof {
                assert(run@.contains(run@[i as int]));
                assert(writes_key_after(run@[i as int], key@, read_sequence));
            }
            return true;
        }
        i += 1;
    }
    proof {
        bytes_order::bytes_order_facts();
        assert forall|record: Record| #[trigger] run@.contains(record) implies !writes_key_after(
            record,
            key@,
            read_sequence,
        ) by {
            let j = choose|j: int| 0 <= j < run@.len() && run@[j] == record;
            if j > i {
                assert(run@[i as int].key.lt(run@[j].key));
            }
        }
    }
    false
}

fn run_writes_range_after(run: &RecordRun, range: &KeyRange, read_sequence: Sequence) -> (found:
    bool)
    ensures
        found <==> exists|record: Record| #[trigger]
            run@.contains(record) && writes_range_after(record, range@, read_sequence),
{
    let mut i: usize = 0;
    while i < run.len()
        invariant
            i <= run@.len(),
            forall|j: int|
                0 <= j < i ==> !writes_range_after(#[trigger] run@[j], range@, read_sequence),
        decreases run@.len() - i,
    {
        let entry = run.get(i);
        if range.contains(entry.key.user_key()) && entry.key.sequence().get()
            > read_sequence.get() {
            proof {
                assert(run@.contains(run@[i as int]));
                assert(writes_range_after(run@[i as int], range@, read_sequence));
            }
            return true;
        }
        i += 1;
    }
    false
}

fn memory_writes_key_after(memory: &MemorySources, key: &[u8], read_sequence: Sequence) -> (found:
    bool)
    requires
        memory.wf(),
    ensures
        found <==> exists|record: Record| #[trigger]
            memory.has_record(record) && writes_key_after(record, key@, read_sequence),
{
    if run_writes_key_after(memory.active_memtable.read_entries(), key, read_sequence) {
        proof {
            let record = choose|record: Record| #[trigger]
                memory.active_memtable@.contains(record) && writes_key_after(
                    record,
                    key@,
                    read_sequence,
                );
            assert(memory.has_record(record));
        }
        return true;
    }
    let mut i: usize = 0;
    while i < memory.delta_snapshot.deltas.len()
        invariant
            memory.wf(),
            i <= memory.delta_snapshot.deltas@.len(),
            forall|j: int, record: Record|
                0 <= j < i && #[trigger] memory.delta_snapshot.deltas@[j].memtable@.contains(record)
                    ==> !writes_key_after(record, key@, read_sequence),
        decreases memory.delta_snapshot.deltas@.len() - i,
    {
        assert(memory.delta_snapshot.deltas@[i as int].wf());
        if run_writes_key_after(
            memory.delta_snapshot.deltas[i].memtable.read_entries(),
            key,
            read_sequence,
        ) {
            proof {
                let delta = memory.delta_snapshot.deltas@[i as int];
                let record = choose|record: Record| #[trigger]
                    delta.memtable@.contains(record) && writes_key_after(
                        record,
                        key@,
                        read_sequence,
                    );
                assert(memory.delta_snapshot.has_record(record));
                assert(memory.has_record(record));
            }
            return true;
        }
        i += 1;
    }
    let mut k: usize = 0;
    while k < memory.immutable_memtables.len()
        invariant
            memory.wf(),
            k <= memory.immutable_memtables@.len(),
            forall|j: int, record: Record|
                0 <= j < k && #[trigger] memory.immutable_memtables@[j].memtable@.contains(record)
                    ==> !writes_key_after(record, key@, read_sequence),
        decreases memory.immutable_memtables@.len() - k,
    {
        assert(memory.immutable_memtables@[k as int].wf());
        if run_writes_key_after(
            memory.immutable_memtables[k].memtable.read_entries(),
            key,
            read_sequence,
        ) {
            proof {
                let queued = memory.immutable_memtables@[k as int];
                let record = choose|record: Record| #[trigger]
                    queued.memtable@.contains(record) && writes_key_after(
                        record,
                        key@,
                        read_sequence,
                    );
                assert(memory.queued_record(record));
                assert(memory.has_record(record));
            }
            return true;
        }
        k += 1;
    }
    false
}

fn memory_writes_range_after(
    memory: &MemorySources,
    range: &KeyRange,
    read_sequence: Sequence,
) -> (found: bool)
    requires
        memory.wf(),
    ensures
        found <==> exists|record: Record| #[trigger]
            memory.has_record(record) && writes_range_after(record, range@, read_sequence),
{
    if run_writes_range_after(memory.active_memtable.read_entries(), range, read_sequence) {
        proof {
            let record = choose|record: Record| #[trigger]
                memory.active_memtable@.contains(record) && writes_range_after(
                    record,
                    range@,
                    read_sequence,
                );
            assert(memory.has_record(record));
        }
        return true;
    }
    let mut i: usize = 0;
    while i < memory.delta_snapshot.deltas.len()
        invariant
            i <= memory.delta_snapshot.deltas@.len(),
            forall|j: int, record: Record|
                0 <= j < i && #[trigger] memory.delta_snapshot.deltas@[j].memtable@.contains(record)
                    ==> !writes_range_after(record, range@, read_sequence),
        decreases memory.delta_snapshot.deltas@.len() - i,
    {
        if run_writes_range_after(
            memory.delta_snapshot.deltas[i].memtable.read_entries(),
            range,
            read_sequence,
        ) {
            proof {
                let delta = memory.delta_snapshot.deltas@[i as int];
                let record = choose|record: Record| #[trigger]
                    delta.memtable@.contains(record) && writes_range_after(
                        record,
                        range@,
                        read_sequence,
                    );
                assert(memory.delta_snapshot.has_record(record));
                assert(memory.has_record(record));
            }
            return true;
        }
        i += 1;
    }
    let mut k: usize = 0;
    while k < memory.immutable_memtables.len()
        invariant
            k <= memory.immutable_memtables@.len(),
            forall|j: int, record: Record|
                0 <= j < k && #[trigger] memory.immutable_memtables@[j].memtable@.contains(record)
                    ==> !writes_range_after(record, range@, read_sequence),
        decreases memory.immutable_memtables@.len() - k,
    {
        if run_writes_range_after(
            memory.immutable_memtables[k].memtable.read_entries(),
            range,
            read_sequence,
        ) {
            proof {
                let queued = memory.immutable_memtables@[k as int];
                let record = choose|record: Record| #[trigger]
                    queued.memtable@.contains(record) && writes_range_after(
                        record,
                        range@,
                        read_sequence,
                    );
                assert(memory.queued_record(record));
                assert(memory.has_record(record));
            }
            return true;
        }
        k += 1;
    }
    false
}

fn tables_write_key_after(version: &LsmVersion, key: &[u8], read_sequence: Sequence) -> (found:
    bool)
    requires
        version.wf(),
    ensures
        found <==> exists|record: Record| #[trigger]
            version.has_record(record) && writes_key_after(record, key@, read_sequence),
{
    let mut i: usize = 0;
    while i < version.tables.len()
        invariant
            version.wf(),
            i <= version.tables@.len(),
            forall|j: int, record: Record|
                0 <= j < i && #[trigger] version.tables@[j].records@.contains(record)
                    ==> !writes_key_after(record, key@, read_sequence),
        decreases version.tables@.len() - i,
    {
        let table: &Table = &version.tables[i];
        assert(version.tables@[i as int].wf());
        if table.properties.spans_key(key) {
            if run_writes_key_after(&table.records, key, read_sequence) {
                proof {
                    let record = choose|record: Record| #[trigger]
                        table.records@.contains(record) && writes_key_after(
                            record,
                            key@,
                            read_sequence,
                        );
                    assert(version.tables@[i as int].records@.contains(record));
                    assert(version.has_record(record));
                }
                return true;
            }
        } else {
            assert forall|record: Record| #[trigger]
                version.tables@[i as int].records@.contains(record) implies !writes_key_after(
                record,
                key@,
                read_sequence,
            ) by {
                let j = choose|j: int| 0 <= j < table.records@.len() && table.records@[j] == record;
                assert(table.properties@.admits(table.records@[j]));
            }
        }
        i += 1;
    }
    false
}

fn tables_write_range_after(
    version: &LsmVersion,
    range: &KeyRange,
    read_sequence: Sequence,
) -> (found: bool)
    ensures
        found <==> exists|record: Record| #[trigger]
            version.has_record(record) && writes_range_after(record, range@, read_sequence),
{
    let mut i: usize = 0;
    while i < version.tables.len()
        invariant
            i <= version.tables@.len(),
            forall|j: int, record: Record|
                0 <= j < i && #[trigger] version.tables@[j].records@.contains(record)
                    ==> !writes_range_after(record, range@, read_sequence),
        decreases version.tables@.len() - i,
    {
        if run_writes_range_after(&version.tables[i].records, range, read_sequence) {
            proof {
                let table = version.tables@[i as int];
                let record = choose|record: Record| #[trigger]
                    table.records@.contains(record) && writes_range_after(
                        record,
                        range@,
                        read_sequence,
                    );
                assert(version.tables@[i as int].records@.contains(record));
                assert(version.has_record(record));
            }
            return true;
        }
        i += 1;
    }
    false
}

fn range_tombstone_modified_after_key(
    snapshot: &ConflictSourceSnapshot,
    key: &[u8],
    read_sequence: Sequence,
) -> (found: bool)
    requires
        snapshot.wf(),
    ensures
        found <==> exists|tombstone: Tombstone| #[trigger]
            snapshot.has_tombstone(tombstone) && deletes_key_after(tombstone, key@, read_sequence),
{
    let index: RangeTombstoneIndex = snapshot.memory.memtable_range_tombstones();
    if index.deletes_key_after(key, read_sequence) {
        proof {
            let i = choose|i: int|
                0 <= i < index@.len() && (#[trigger] index@[i]).range.contains(key@)
                    && index@[i].sequence.0 > read_sequence.0;
            assert(index@.contains(index@[i]));
            assert(snapshot.has_tombstone(index@[i]));
            assert(deletes_key_after(index@[i], key@, read_sequence));
        }
        return true;
    }
    assert forall|tombstone: Tombstone|
        snapshot.memory.has_tombstone(tombstone) implies !#[trigger] deletes_key_after(
        tombstone,
        key@,
        read_sequence,
    ) by {
        assert(index@.contains(tombstone));
        let i = choose|i: int| 0 <= i < index@.len() && index@[i] == tombstone;
        assert(index@[i] == tombstone);
    }
    let mut t: usize = 0;
    while t < snapshot.version.tables.len()
        invariant
            t <= snapshot.version.tables@.len(),
            forall|tombstone: Tombstone|
                snapshot.memory.has_tombstone(tombstone) ==> !#[trigger] deletes_key_after(
                    tombstone,
                    key@,
                    read_sequence,
                ),
            forall|j: int, tombstone: Tombstone|
                0 <= j < t && #[trigger] snapshot.version.tables@[j].tombstones().contains(
                    tombstone,
                ) ==> !deletes_key_after(tombstone, key@, read_sequence),
        decreases snapshot.version.tables@.len() - t,
    {
        let list = &snapshot.version.tables[t].range_tombstones;
        let ghost views = snapshot.version.tables@[t as int].tombstones();
        let mut i: usize = 0;
        while i < list.len()
            invariant
                i <= list@.len(),
                t < snapshot.version.tables@.len(),
                *list == snapshot.version.tables@[t as int].range_tombstones,
                views == snapshot.version.tables@[t as int].tombstones(),
                forall|j: int|
                    0 <= j < i ==> !deletes_key_after(#[trigger] views[j], key@, read_sequence),
            decreases list@.len() - i,
        {
            if list[i].range.contains(key) && list[i].sequence.get() > read_sequence.get() {
                proof {
                    assert(views.contains(views[i as int]));
                    assert(snapshot.version.has_tombstone(views[i as int]));
                    assert(snapshot.has_tombstone(views[i as int]));
                    assert(deletes_key_after(views[i as int], key@, read_sequence));
                }
                return true;
            }
            i += 1;
        }
        t += 1;
    }
    false
}

fn range_tombstone_modified_after_range(
    snapshot: &ConflictSourceSnapshot,
    range: &KeyRange,
    read_sequence: Sequence,
) -> (found: bool)
    requires
        snapshot.wf(),
    ensures
        found <==> exists|tombstone: Tombstone| #[trigger]
            snapshot.has_tombstone(tombstone) && deletes_range_after(
                tombstone,
                range@,
                read_sequence,
            ),
{
    let index: RangeTombstoneIndex = snapshot.memory.memtable_range_tombstones();
    if index.overlaps_after(range, read_sequence) {
        proof {
            let i = choose|i: int|
                0 <= i < index@.len() && (#[trigger] index@[i]).range.overlaps(range@)
                    && index@[i].sequence.0 > read_sequence.0;
            assert(index@.contains(index@[i]));
            assert(snapshot.has_tombstone(index@[i]));
            assert(deletes_range_after(index@[i], range@, read_sequence));
        }
        return true;
    }
    assert forall|tombstone: Tombstone|
        snapshot.memory.has_tombstone(tombstone) implies !#[trigger] deletes_range_after(
        tombstone,
        range@,
        read_sequence,
    ) by {
        assert(index@.contains(tombstone));
        let i = choose|i: int| 0 <= i < index@.len() && index@[i] == tombstone;
        assert(index@[i] == tombstone);
    }
    let mut t: usize = 0;
    while t < snapshot.version.tables.len()
        invariant
            t <= snapshot.version.tables@.len(),
            forall|tombstone: Tombstone|
                snapshot.memory.has_tombstone(tombstone) ==> !#[trigger] deletes_range_after(
                    tombstone,
                    range@,
                    read_sequence,
                ),
            forall|j: int, tombstone: Tombstone|
                0 <= j < t && #[trigger] snapshot.version.tables@[j].tombstones().contains(
                    tombstone,
                ) ==> !deletes_range_after(tombstone, range@, read_sequence),
        decreases snapshot.version.tables@.len() - t,
    {
        let list = &snapshot.version.tables[t].range_tombstones;
        let ghost views = snapshot.version.tables@[t as int].tombstones();
        let mut i: usize = 0;
        while i < list.len()
            invariant
                i <= list@.len(),
                t < snapshot.version.tables@.len(),
                *list == snapshot.version.tables@[t as int].range_tombstones,
                views == snapshot.version.tables@[t as int].tombstones(),
                forall|j: int|
                    0 <= j < i ==> !deletes_range_after(#[trigger] views[j], range@, read_sequence),
            decreases list@.len() - i,
        {
            if list[i].range.overlaps(range) && list[i].sequence.get() > read_sequence.get() {
                proof {
                    assert(views.contains(views[i as int]));
                    assert(snapshot.version.has_tombstone(views[i as int]));
                    assert(snapshot.has_tombstone(views[i as int]));
                    assert(deletes_range_after(views[i as int], range@, read_sequence));
                }
                return true;
            }
            i += 1;
        }
        t += 1;
    }
    false
}

/// Tells whether a snapshot holds a change of `key` later than `read_sequence`.
pub fn point_key_modified_after_in_snapshot(
    snapshot: &ConflictSourceSnapshot,
    key: &[u8],
    read_sequence: Sequence,
) -> (modified: bool)
    requires
        snapshot.wf(),
    ensures
        modified == snapshot.key_changed_after(key@, read_sequence),
{
    if memory_writes_key_after(&snapshot.memory, key, read_sequence) {
        proof {
            let record = choose|record: Record| #[trigger]
                snapshot.memory.has_record(record) && writes_key_after(record, key@, read_sequence);
            assert(snapshot.records().contains(record));
        }
        return true;
    }
    if tables_write_key_after(&snapshot.version, key, read_sequence) {
        proof {
            let record = choose|record: Record| #[trigger]
                snapshot.version.has_record(record) && writes_key_after(
                    record,
                    key@,
                    read_sequence,
                );
            assert(snapshot.records().contains(record));
        }
        return true;
    }
    range_tombstone_modified_after_key(snapshot, key, read_sequence)
}

/// Tells whether a snapshot holds a change inside `range` later than `read_sequence`.
pub fn key_range_modified_after_in_snapshot(
    snapshot: &ConflictSourceSnapshot,
    range: &KeyRange,
    read_sequence: Sequence,
) -> (modified: bool)
    requires
        snapshot.wf(),
    ensures
        modified == snapshot.range_changed_after(range@, read_sequence),
{
    if memory_writes_range_after(&snapshot.memory, range, read_sequence) {
        proof {
            let record = choose|record: Record| #[trigger]
                snapshot.memory.has_record(record) && writes_range_after(
                    record,
                    range@,
                    read_sequence,
                );
            assert(snapshot.records().contains(record));
        }
        return true;
    }
    if tables_write_range_after(&snapshot.version, range, read_sequence) {
        proof {
            let record = choose|record: Record| #[trigger]
                snapshot.version.has_record(record) && writes_range_after(
                    record,
                    range@,
                    read_sequence,
                );
            assert(snapshot.records().contains(record));
        }
        return true;
    }
    range_tombstone_modified_after_range(snapshot, range, read_sequence)
}

impl LsmTree {
    /// Whether a read of `key` at `read_sequence` is out of date.
    pub open spec fn key_changed_after(&self, key: Seq<u8>, read_sequence: Sequence) -> bool {
        ||| exists|record: Record| #[trigger]
            self.read_records(read_sequence).contains(record) && writes_key_after(
                record,
                key,
                read_sequence,
            )
        ||| exists|tombstone: Tombstone| #[trigger]
            self.reads_tombstone(read_sequence, tombstone) && deletes_key_after(
                tombstone,
                key,
                read_sequence,
            )
    }

    /// Whether a read of `range` at `read_sequence` is out of date.
    pub open spec fn range_changed_after(&self, range: RangeView, read_sequence: Sequence) -> bool {
        ||| exists|record: Record| #[trigger]
            self.read_records(read_sequence).contains(record) && writes_range_after(
                record,
                range,
                read_sequence,
            )
        ||| exists|tombstone: Tombstone| #[trigger]
            self.reads_tombstone(read_sequence, tombstone) && deletes_range_after(
                tombstone,
                range,
                read_sequence,
            )
    }

    /// Takes the sources for a conflict test of `key`.
    pub fn point_conflict_snapshot(&self, key: &[u8], read_sequence: Sequence) -> (snapshot:
        ConflictSourceSnapshot)
        requires
            self.wf(),
        ensures
            self.is_key_snapshot(snapshot, key@, read_sequence),
    {
        self.point_read_snapshot_for_key(key, read_sequence)
    }

    /// Takes the sources for a conflict test of a range.
    pub fn range_conflict_snapshot(&self, read_sequence: Sequence) -> (snapshot:
        ConflictSourceSnapshot)
        requires
            self.wf(),
        ensures
            snapshot.wf(),
            forall|record: Record| #[trigger]
                snapshot.records().contains(record) <==> self.read_records(read_sequence).contains(
                    record,
                ),
            forall|tombstone: Tombstone|
                (snapshot.memory.has_tombstone(tombstone) || snapshot.version.has_tombstone(
                    tombstone,
                )) <==> #[trigger] self.reads_tombstone(read_sequence, tombstone),
    {
        self.point_read_snapshot(read_sequence)
    }

    /// Tells whether a read of `key` at `read_sequence` is out of date: a later point
    /// record of the key, or a later range deletion that covers it, exists.
    pub fn point_key_modified_after(&self, key: &[u8], read_sequence: Sequence) -> (modified: bool)
        requires
            self.wf(),
        ensures
            modified == self.key_changed_after(key@, read_sequence),
    {
        let snapshot: ConflictSourceSnapshot = self.point_conflict_snapshot(key, read_sequence);
        let modified: bool = point_key_modified_after_in_snapshot(&snapshot, key, read_sequence);
        proof {
            key_conflicts_agree(*self, snapshot, key@, read_sequence);
        }
        modified
    }

    /// Tells whether a read of `range` at `read_sequence` is out of date: a later point
    /// record inside the range, or a later range deletion that overlaps it, exists.
    pub fn key_range_modified_after(&self, range: &KeyRange, read_sequence: Sequence) -> (modified:
        bool)
        requires
            self.wf(),
        ensures
            modified == self.range_changed_after(range@, read_sequence),
    {
        let snapshot: ConflictSourceSnapshot = self.range_conflict_snapshot(read_sequence);
        let modified: bool = key_range_modified_after_in_snapshot(&snapshot, range, read_sequence);
        proof {
            if modified {
                if exists|record: Record| #[trigger]
                    snapshot.records().contains(record) && writes_range_after(
                        record,
                        range@,
                        read_sequence,
                    ) {
                    let record = choose|record: Record| #[trigger]
                        snapshot.records().contains(record) && writes_range_after(
                            record,
                            range@,
                            read_sequence,
                        );
                    assert(self.read_records(read_sequence).contains(record));
                } else {
                    let tombstone = choose|tombstone: Tombstone| #[trigger]
                        snapshot.has_tombstone(tombstone) && deletes_range_after(
                            tombstone,
                            range@,
                            read_sequence,
                        );
                    assert(self.reads_tombstone(read_sequence, tombstone));
                }
            } else {
                assert forall|record: Record| #[trigger]
                    self.read_records(read_sequence).contains(record) implies !writes_range_after(
                    record,
                    range@,
                    read_sequence,
                ) by {
                    assert(snapshot.records().contains(record));
                }
                assert forall|tombstone: Tombstone| #[trigger]
                    self.reads_tombstone(read_sequence, tombstone) implies !deletes_range_after(
                    tombstone,
                    range@,
                    read_sequence,
                ) by {
                    assert(snapshot.has_tombstone(tombstone));
                }
            }
        }
        modified
    }
}

proof fn key_conflicts_agree(
    tree: LsmTree,
    snapshot: LsmPointReadSnapshot,
    key: Seq<u8>,
    read_sequence: Sequence,
)
    requires
        tree.wf(),
        tree.is_key_snapshot(snapshot, key, read_sequence),
    ensures
        snapshot.key_changed_after(key, read_sequence) <==> tree.key_changed_after(
            key,
            read_sequence,
        ),
{
    if snapshot.key_changed_after(key, read_sequence) {
        if exists|record: Record| #[trigger]
            snapshot.records().contains(record) && writes_key_after(record, key, read_sequence) {
            let record = choose|record: Record| #[trigger]
                snapshot.records().contains(record) && writes_key_after(record, key, read_sequence);
            tree::key_snapshot_record(tree, snapshot, key, read_sequence, record);
            assert(tree.read_records(read_sequence).contains(record));
        } else {
            let tombstone = choose|tombstone: Tombstone| #[trigger]
                snapshot.has_tombstone(tombstone) && deletes_key_after(
                    tombstone,
                    key,
                    read_sequence,
                );
            tree::key_snapshot_tombstone(tree, snapshot, key, read_sequence, tombstone);
            assert(tree.reads_tombstone(read_sequence, tombstone));
        }
    }
    if tree.key_changed_after(key, read_sequence) {
        if exists|record: Record| #[trigger]
            tree.read_records(read_sequence).contains(record) && writes_key_after(
                record,
                key,
                read_sequence,
            ) {
            let record = choose|record: Record| #[trigger]
                tree.read_records(read_sequence).contains(record) && writes_key_after(
                    record,
                    key,
                    read_sequence,
                );
            tree::key_snapshot_record(tree, snapshot, key, read_sequence, record);
            assert(snapshot.records().contains(record));
        } else {
            let tombstone = choose|tombstone: Tombstone| #[trigger]
                tree.reads_tombstone(read_sequence, tombstone) && deletes_key_after(
                    tombstone,
                    key,
                    read_sequence,
                );
            tree::key_snapshot_tombstone(tree, snapshot, key, read_sequence, tombstone);
            assert(snapshot.has_tombstone(tombstone));
        }
    }
}

/// A read that is not out of date finds the same now as it found then: every record of
/// the key, and every range deletion over it, is one that the read saw.
pub proof fn unchanged_key_has_no_later_write(
    tree: LsmTree,
    key: Seq<u8>,
    read_sequence: Sequence,
    record: Record,
    tombstone: Tombstone,
)
    requires
        !tree.key_changed_after(key, read_sequence),
    ensures
        tree.read_records(read_sequence).contains(record) && record.key.user_key == key
            ==> record.visible_to(key, read_sequence),
        tree.reads_tombstone(read_sequence, tombstone) && tombstone.range.contains(key)
            ==> tombstone.sequence.0 <= read_sequence.0,
{
}

/// A change of a key is a change of every range that holds the key.
pub proof fn key_change_is_range_change(
    tree: LsmTree,
    key: Seq<u8>,
    range: RangeView,
    read_sequence: Sequence,
)
    requires
        tree.key_changed_after(key, read_sequence),
        range.contains(key),
    ensures
        tree.range_changed_after(range, read_sequence),
{
    if exists|record: Record| #[trigger]
        tree.read_records(read_sequence).contains(record) && writes_key_after(
            record,
            key,
            read_sequence,
        ) {
        let record = choose|record: Record| #[trigger]
            tree.read_records(read_sequence).contains(record) && writes_key_after(
                record,
                key,
                read_sequence,
            );
        assert(writes_range_after(record, range, read_sequence));
    } else {
        let tombstone = choose|tombstone: Tombstone| #[trigger]
            tree.reads_tombstone(read_sequence, tombstone) && deletes_key_after(
                tombstone,
                key,
                read_sequence,
            );
        crate::types::shared_key_means_overlap(tombstone.range, range, key);
        assert(deletes_range_after(tombstone, range, read_sequence));
    }
}

/// Conflicts are exact. A read of a key is out of date if and only if the tree holds a record
/// of the key, or a range deletion over it, of a commit after the read; a read of a range if
/// and only if it holds such a record of a key inside, or such a range deletion that overlaps.
pub proof fn only_later_commits_conflict(
    tree: LsmTree,
    key: Seq<u8>,
    range: RangeView,
    read_sequence: Sequence,
)
    ensures
        tree.key_changed_after(key, read_sequence) <==> {
            ||| exists|record: Record| #[trigger]
                tree.read_records(read_sequence).contains(record) && record.key.user_key == key
                    && read_sequence.0 < record.key.sequence.0
            ||| exists|tombstone: Tombstone| #[trigger]
                tree.reads_tombstone(read_sequence, tombstone) && tombstone.range.contains(key)
                    && read_sequence.0 < tombstone.sequence.0
        },
        tree.range_changed_after(range, read_sequence) <==> {
            ||| exists|record: Record| #[trigger]
                tree.read_records(read_sequence).contains(record) && range.contains(
                    record.key.user_key,
                ) && read_sequence.0 < record.key.sequence.0
            ||| exists|tombstone: Tombstone| #[trigger]
                tree.reads_tombstone(read_sequence, tombstone) && tombstone.range.overlaps(range)
                    && read_sequence.0 < tombstone.sequence.0
        },
{
}

/// A read at a commit that nothing follows is never out of date: what a transaction read itself
/// is no conflict.
pub proof fn a_read_of_the_last_commit_does_not_conflict(
    tree: LsmTree,
    key: Seq<u8>,
    range: RangeView,
    read_sequence: Sequence,
)
    requires
        forall|record: Record| #[trigger]
            tree.read_records(read_sequence).contains(record) ==> record.key.sequence.0
                <= read_sequence.0,
        forall|tombstone: Tombstone| #[trigger]
            tree.reads_tombstone(read_sequence, tombstone) ==> tombstone.sequence.0
                <= read_sequence.0,
    ensures
        !tree.key_changed_after(key, read_sequence),
        !tree.range_changed_after(range, read_sequence),
{
}

/// A read of a range that is out of date holds a key whose read is out of date, or overlaps a
/// later range deletion.
pub proof fn range_change_is_key_change(
    tree: LsmTree,
    range: RangeView,
    read_sequence: Sequence,
)
    requires
        tree.range_changed_after(range, read_sequence),
    ensures
        (exists|key: Seq<u8>|
            range.contains(key) && #[trigger] tree.key_changed_after(key, read_sequence)) || (
        exists|tombstone: Tombstone| #[trigger]
            tree.reads_tombstone(read_sequence, tombstone) && tombstone.range.overlaps(range)
                && read_sequence.0 < tombstone.sequence.0),
{
    if exists|record: Record| #[trigger]
        tree.read_records(read_sequence).contains(record) && writes_range_after(
            record,
            range,
            read_sequence,
        ) {
        let record = choose|record: Record| #[trigger]
            tree.read_records(read_sequence).contains(record) && writes_range_after(
                record,
                range,
                read_sequence,
            );
        assert(writes_key_after(record, record.key.user_key, read_sequence));
        assert(tree.key_changed_after(record.key.user_key, read_sequence));
    }
}

/// Whether an operation touches a key.
pub open spec fn touches_key(operation: Operation, key: Seq<u8>) -> bool {
    match operation {
        Operation::Put(own, _) => own == key,
        Operation::Delete(own) => own == key,
        Operation::DeleteRange(deleted) => deleted.contains(key),
    }
}

/// Whether an operation touches a range.
pub open spec fn touches_range(operation: Operation, range: RangeView) -> bool {
    match operation {
        Operation::Put(own, _) => range.contains(own),
        Operation::Delete(own) => range.contains(own),
        Operation::DeleteRange(deleted) => deleted.overlaps(range),
    }
}

proof fn untouched_sources_agree(
    before: LsmTree,
    after: LsmTree,
    record: Record,
    tombstone: Tombstone,
)
    requires
        tree::same_but_active(before, after),
    ensures
        after.queued_record(record) == before.queued_record(record),
        after.queued_tombstone(tombstone) == before.queued_tombstone(tombstone),
        after.current_version == before.current_version,
        after.delta_shards == before.delta_shards,
        after.delta_mirror_sequence == before.delta_mirror_sequence,
{
    assert(after.immutable_memtables == before.immutable_memtables);
}

/// An operation makes out of date exactly the reads before its commit that touch what it
/// changes, and leaves all others as they were.
pub proof fn a_write_conflicts_with_earlier_reads_of_what_it_changes(
    before: LsmTree,
    after: LsmTree,
    operation: Operation,
    sequence: Sequence,
    batch_index: u32,
    key: Seq<u8>,
    range: RangeView,
    read_sequence: Sequence,
)
    requires
        tree::applied(before, after, operation, sequence, batch_index),
    ensures
        after.key_changed_after(key, read_sequence) <==> before.key_changed_after(
            key,
            read_sequence,
        ) || (touches_key(operation, key) && read_sequence.0 < sequence.0),
        after.range_changed_after(range, read_sequence) <==> before.range_changed_after(
            range,
            read_sequence,
        ) || (touches_range(operation, range) && read_sequence.0 < sequence.0),
{
    assert forall|tombstone: Tombstone|
        #![trigger before.reads_tombstone(read_sequence, tombstone)]
        #![trigger after.reads_tombstone(read_sequence, tombstone)]
        after.reads_tombstone(read_sequence, tombstone) <==> before.reads_tombstone(
            read_sequence,
            tombstone,
        ) || operation.tombstone(sequence, batch_index) == Some(tombstone) by {
        isolation::pushed_tombstone(before, after, operation, sequence, batch_index, tombstone);
        untouched_sources_agree(before, after, arbitrary(), tombstone);
    }
    match operation.record(sequence, batch_index) {
        Some(added) => {
            assert(after.active_memtable@.contains(added));
            assert(after.read_records(read_sequence).contains(added));
            assert forall|record: Record| #[trigger]
                after.read_records(read_sequence).contains(record) implies record == added
                || before.read_records(read_sequence).contains(record) by {
                untouched_sources_agree(before, after, record, arbitrary());
            }
            assert forall|record: Record| #[trigger]
                before.read_records(read_sequence).contains(record) implies record.key == added.key
                || after.read_records(read_sequence).contains(record) by {
                untouched_sources_agree(before, after, record, arbitrary());
            }
            if after.key_changed_after(key, read_sequence) && !(exists|tombstone: Tombstone|
                #[trigger]
                after.reads_tombstone(read_sequence, tombstone) && deletes_key_after(
                    tombstone,
                    key,
                    read_sequence,
                )) {
                let record = choose|record: Record| #[trigger]
                    after.read_records(read_sequence).contains(record) && writes_key_after(
                        record,
                        key,
                        read_sequence,
                    );
                assert(record == added || before.read_records(read_sequence).contains(record));
            }
        },
        None => {
            let added = operation.tombstone(sequence, batch_index)->0;
            assert(after.reads_tombstone(read_sequence, added));
            assert forall|record: Record|
                #![trigger before.read_records(read_sequence).contains(record)]
                #![trigger after.read_records(read_sequence).contains(record)]
                after.read_records(read_sequence).contains(record) == before.read_records(
                    read_sequence,
                ).contains(record) by {
                untouched_sources_agree(before, after, record, arbitrary());
            }
        },
    }
}

/// Queuing the active memtable makes no read out of date, and none current again.
pub proof fn freeze_changes_no_conflict(
    before: LsmTree,
    after: LsmTree,
    sequence: Sequence,
    key: Seq<u8>,
    range: RangeView,
    read_sequence: Sequence,
)
    requires
        tree::is_frozen(before, after, sequence),
    ensures
        after.key_changed_after(key, read_sequence) == before.key_changed_after(key, read_sequence),
        after.range_changed_after(range, read_sequence) == before.range_changed_after(
            range,
            read_sequence,
        ),
{
    assert forall|record: Record|
        #![trigger before.read_records(read_sequence).contains(record)]
        #![trigger after.read_records(read_sequence).contains(record)]
        after.read_records(read_sequence).contains(record) == before.read_records(
            read_sequence,
        ).contains(record) by {
        tree::freeze_keeps_contents(before, after, sequence, record, arbitrary());
    }
    assert forall|tombstone: Tombstone|
        #![trigger before.reads_tombstone(read_sequence, tombstone)]
        #![trigger after.reads_tombstone(read_sequence, tombstone)]
        after.reads_tombstone(read_sequence, tombstone) == before.reads_tombstone(
            read_sequence,
            tombstone,
        ) by {
        tree::freeze_keeps_contents(before, after, sequence, arbitrary(), tombstone);
    }
}

} // verus!
