//! The in-memory state of one bucket over its tables.
use std::sync::Arc;
use vstd::prelude::*;

use crate::blob::ValueRef;
use crate::error::{Error, ErrorKind, Result};
use crate::internal_key::{InternalKey, ValueKind};
use crate::lsm::delta;
use crate::lsm::delta::{DeltaDebugStats, DeltaShardSet};
use crate::lsm::lifecycle::{LsmDropGuard, LsmLifecycle, LsmWriteAdmission};
use crate::lsm::read;
use crate::lsm::read::{LsmPointReadSnapshot, PointSource};
use crate::lsm::sources;
use crate::lsm::sources::{DeltaSnapshot, ImmutableMemtable, InMemoryDelta, MemorySources};
use crate::lsm::version;
use crate::lsm::version::LsmVersion;
use crate::memtable::{Memtable, Record};
use crate::options::BucketOptions;
use crate::point_value;
use crate::point_value::{PointValueSource, SourceView};
use crate::range_tombstone;
use crate::range_tombstone::{RangeTombstone, Tombstone};
use crate::table::Table;
use crate::types::Sequence;
use crate::write_batch::{BatchOperation, Operation};

verus! {

/// The log-structured merge tree of one bucket.
#[derive(Debug)]
pub struct LsmTree {
    /// Options of the bucket.
    pub options: BucketOptions,
    /// Memtable that takes writes.
    pub active_memtable: Arc<Memtable>,
    /// Range deletions beside the active memtable.
    pub range_tombstones: Vec<RangeTombstone>,
    /// What those range deletions are charged with.
    pub range_tombstone_bytes: u64,
    /// Commits that are readable before they reach the memtable.
    pub delta_shards: DeltaShardSet,
    /// Last commit up to which the memtables hold what the deltas hold, or zero.
    pub delta_mirror_sequence: u64,
    /// Memtables that wait to be flushed.
    pub immutable_memtables: Vec<ImmutableMemtable>,
    /// Number of memtables that wait to be flushed.
    pub immutable_memtable_count: usize,
    /// Tables.
    pub current_version: Arc<LsmVersion>,
    /// Writes in progress.
    pub lifecycle: LsmLifecycle,
    /// Identity of the next memtable that is frozen.
    pub next_memtable_id: u64,
}

impl LsmTree {
    /// Whether every source is well formed, the counters are those of what they
    /// count, and queued memtables have distinct identities.
    pub open spec fn wf(&self) -> bool {
        &&& self.active_memtable.wf()
        &&& self.range_tombstone_bytes == delta::tombstone_bytes(self.tombstones())
        &&& self.delta_shards.wf()
        &&& self.current_version.wf()
        &&& self.immutable_memtable_count == self.immutable_memtables@.len()
        &&& forall|i: int|
            0 <= i < self.immutable_memtables@.len() ==> (
            #[trigger] self.immutable_memtables@[i]).wf() && self.immutable_memtables@[i].id
                < self.next_memtable_id
        &&& forall|i: int, j: int|
            0 <= i < j < self.immutable_memtables@.len() ==> (
            #[trigger] self.immutable_memtables@[i]).id < (
            #[trigger] self.immutable_memtables@[j]).id
    }

    /// The range deletions beside the active memtable.
    pub open spec fn tombstones(&self) -> Seq<Tombstone> {
        range_tombstone::tombstones_of(self.range_tombstones@)
    }

    /// Whether a queued memtable holds the record.
    pub open spec fn queued_record(&self, record: Record) -> bool {
        exists|i: int|
            0 <= i < self.immutable_memtables@.len() && (
            #[trigger] self.immutable_memtables@[i]).memtable@.contains(record)
    }

    /// Whether a queued memtable holds the range deletion.
    pub open spec fn queued_tombstone(&self, tombstone: Tombstone) -> bool {
        exists|i: int|
            0 <= i < self.immutable_memtables@.len() && (
            #[trigger] self.immutable_memtables@[i]).tombstones().contains(tombstone)
    }

    /// Whether a memtable or a table holds the record.
    pub open spec fn has_record(&self, record: Record) -> bool {
        ||| self.active_memtable@.contains(record)
        ||| self.queued_record(record)
        ||| self.current_version.has_record(record)
    }

    /// Whether a memtable or a table holds the range deletion.
    pub open spec fn has_tombstone(&self, tombstone: Tombstone) -> bool {
        ||| self.tombstones().contains(tombstone)
        ||| self.queued_tombstone(tombstone)
        ||| self.current_version.has_tombstone(tombstone)
    }

    /// Whether a read at `read_sequence` needs no delta.
    pub open spec fn mirror_covers(&self, read_sequence: Sequence) -> bool {
        self.delta_mirror_sequence != 0 && self.delta_mirror_sequence >= read_sequence.0
    }

    /// The records that a read at `read_sequence` works on.
    pub open spec fn read_records(&self, read_sequence: Sequence) -> Set<Record> {
        Set::new(
            |record: Record|
                self.has_record(record) || (!self.mirror_covers(read_sequence)
                    && self.delta_shards.has_record(record)),
        )
    }

    /// Whether a read at `read_sequence` works on the range deletion.
    pub open spec fn reads_tombstone(&self, read_sequence: Sequence, tombstone: Tombstone) -> bool {
        self.has_tombstone(tombstone) || (!self.mirror_covers(read_sequence)
            && self.delta_shards.has_tombstone(tombstone))
    }

    /// Whether a range deletion that a read works on covers the record.
    pub open spec fn covers(&self, record: Record, read_sequence: Sequence) -> bool {
        exists|tombstone: Tombstone|
            self.reads_tombstone(read_sequence, tombstone) && #[trigger] tombstone.covers(
                record.key.user_key,
                record.key.sequence,
                record.key.batch_index,
                read_sequence,
            )
    }

    /// The in-memory sources that a read of `key` visits, in order.
    pub open spec fn key_runs(&self, key: Seq<u8>, read_sequence: Sequence) -> Seq<Seq<Record>> {
        let queued = self.immutable_memtables@.len();
        let deltas = if self.mirror_covers(read_sequence) {
            Seq::<Arc<InMemoryDelta>>::empty()
        } else {
            self.delta_shards.shards@[delta::shard_of(key)].open_epoch.deltas@
        };
        Seq::new(
            1 + queued + deltas.len(),
            |i: int|
                if i == 0 {
                    self.active_memtable@
                } else if i <= queued {
                    self.immutable_memtables@[i - 1].memtable@
                } else {
                    deltas[i - 1 - queued].memtable@
                },
        )
    }

    /// The sources that a read of `key` visits, in the order in which it visits them.
    pub open spec fn point_sources(
        &self,
        key: Seq<u8>,
        read_sequence: Sequence,
    ) -> Seq<PointSource> {
        let queued = self.immutable_memtables@.len();
        let deltas = self.delta_shards.shards@[delta::shard_of(key)].open_epoch.deltas@;
        Seq::new(
            self.key_runs(key, read_sequence).len(),
            |i: int|
                PointSource {
                    records: self.key_runs(key, read_sequence)[i],
                    latest: if i <= queued {
                        None
                    } else {
                        Some(deltas[i - 1 - queued].sequence)
                    },
                },
        ) + read::table_sources(self.current_version.tables@)
    }

    /// The record that a read of `key` at `read_sequence` takes.
    pub open spec fn takes(&self, key: Seq<u8>, read_sequence: Sequence) -> Option<Record> {
        read::taken(self.point_sources(key, read_sequence), key, read_sequence)
    }

    /// What a read of `key` at `read_sequence` gives back: the value of the record that it
    /// takes, if that is a put which no range deletion covers, and corruption if the put lacks
    /// its value.
    pub open spec fn answers(
        &self,
        key: Seq<u8>,
        read_sequence: Sequence,
        result: Result<Option<PointValueSource>>,
    ) -> bool {
        read::answered_with(
            self.takes(key, read_sequence),
            |record: Record| self.covers(record, read_sequence),
            result,
        )
    }

    /// Whether no in-memory source splits a commit that a read of `key` sees.
    pub open spec fn commits_whole(&self, key: Seq<u8>, read_sequence: Sequence) -> bool {
        read::whole_commits(self.key_runs(key, read_sequence), key, read_sequence)
    }

    /// Whether `record` decides a read of `key` at `read_sequence`.
    pub open spec fn decides(&self, key: Seq<u8>, read_sequence: Sequence, record: Record) -> bool {
        read::newest_of(
            self.read_records(read_sequence),
            key,
            read_sequence,
            self.commits_whole(key, read_sequence),
            record,
        )
    }

    /// What a read of `key` at `read_sequence` may find.
    pub open spec fn finds(
        &self,
        key: Seq<u8>,
        read_sequence: Sequence,
        found: Option<SourceView>,
    ) -> bool {
        match found {
            Some(value) => exists|record: Record| #[trigger]
                self.decides(key, read_sequence, record) && record.key.kind == ValueKind::Put
                    && !self.covers(record, read_sequence) && read::value_of(record) == Some(
                    value,
                ),
            None => {
                ||| forall|record: Record| #[trigger]
                    self.read_records(read_sequence).contains(record) ==> !record.visible_to(
                        key,
                        read_sequence,
                    )
                ||| exists|record: Record| #[trigger]
                    self.decides(key, read_sequence, record) && (record.key.kind != ValueKind::Put
                        || self.covers(record, read_sequence))
            },
        }
    }

    /// Whether a read of `key` at `read_sequence` meets a put that lacks its value.
    pub open spec fn breaks(&self, key: Seq<u8>, read_sequence: Sequence) -> bool {
        exists|record: Record| #[trigger]
            self.decides(key, read_sequence, record) && record.key.kind == ValueKind::Put
                && !self.covers(record, read_sequence) && record.value is None
    }

    /// Whether in-memory sources are those of the tree, with some deltas.
    pub open spec fn lends(&self, memory: MemorySources) -> bool {
        &&& memory.active_memtable == self.active_memtable
        &&& range_tombstone::tombstones_of(memory.active_range_tombstones@) == self.tombstones()
        &&& memory.immutable_memtables@ == self.immutable_memtables@
    }

    /// Whether a snapshot holds the sources for a read of `key`.
    pub open spec fn is_key_snapshot(
        &self,
        snapshot: LsmPointReadSnapshot,
        key: Seq<u8>,
        read_sequence: Sequence,
    ) -> bool {
        &&& snapshot.wf()
        &&& snapshot.version == self.current_version
        &&& self.lends(snapshot.memory)
        &&& snapshot.memory.delta_snapshot.deltas@ == if self.mirror_covers(read_sequence) {
            Seq::<Arc<InMemoryDelta>>::empty()
        } else {
            self.delta_shards.shards@[delta::shard_of(key)].open_epoch.deltas@
        }
    }

    /// The deltas of the chosen shards that a read at `read_sequence` visits, in order.
    pub open spec fn deltas_read(&self, chosen: Set<int>, read_sequence: Sequence) -> Seq<
        Arc<InMemoryDelta>,
    > {
        if self.mirror_covers(read_sequence) {
            Seq::empty()
        } else {
            delta::deltas_of(self.delta_shards.shards@, chosen)
        }
    }

    /// Whether a snapshot holds the sources of the tree, with the deltas of the chosen shards.
    pub open spec fn is_snapshot(
        &self,
        snapshot: LsmPointReadSnapshot,
        chosen: Set<int>,
        read_sequence: Sequence,
    ) -> bool {
        &&& snapshot.wf()
        &&& snapshot.version == self.current_version
        &&& self.lends(snapshot.memory)
        &&& snapshot.memory.delta_snapshot.deltas@ == self.deltas_read(chosen, read_sequence)
    }

    /// Opens a tree over its tables; two tables of one identifier are corruption.
    pub fn new(options: BucketOptions, tables: Vec<Arc<Table>>) -> (result: Result<LsmTree>)
        requires
            forall|i: int| 0 <= i < tables@.len() ==> (#[trigger] tables@[i]).wf(),
        ensures
            match result {
                Ok(tree) => {
                    &&& !version::has_duplicate_id(tables@)
                    &&& tree.wf()
                    &&& tree.options == options
                    &&& tree.current_version.tables == tables
                    &&& tree.active_memtable@.len() == 0
                    &&& tree.tombstones().len() == 0
                    &&& tree.immutable_memtables@.len() == 0
                    &&& tree.delta_mirror_sequence == 0
                    &&& !tree.lifecycle.dropping
                    &&& tree.lifecycle.active_writes == 0
                    &&& forall|i: int|
                        0 <= i < 16 ==> (
                        #[trigger] tree.delta_shards.shards@[i]).open_epoch.deltas@.len() == 0
                },
                Err(error) => {
                    &&& version::has_duplicate_id(tables@)
                    &&& error.says(ErrorKind::Corruption, "table id is used more than once"@)
                },
            },
    {
        let current_version: Arc<LsmVersion> = match LsmVersion::new(tables) {
            Ok(version) => Arc::new(version),
            Err(error) => {
                return Err(error);
            },
        };
        let tree = LsmTree {
            options,
            active_memtable: Arc::new(Memtable::new()),
            range_tombstones: Vec::new(),
            range_tombstone_bytes: 0,
            delta_shards: DeltaShardSet::new(),
            delta_mirror_sequence: 0,
            immutable_memtables: Vec::new(),
            immutable_memtable_count: 0,
            current_version,
            lifecycle: LsmLifecycle::new(),
            next_memtable_id: 0,
        };
        proof {
            assert(tree.tombstones() =~= Seq::<Tombstone>::empty());
        }
        Ok(tree)
    }

    /// Admits one write unless a drop closed the bucket.
    pub fn admit_write(&mut self) -> (result: Result<LsmWriteAdmission>)
        ensures
            same_contents(*old(self), *final(self)),
            match result {
                Ok(_) => {
                    &&& !old(self).lifecycle.dropping
                    &&& final(self).lifecycle@ == old(self).lifecycle@.with_write()
                },
                Err(error) => {
                    &&& final(self).lifecycle == old(self).lifecycle
                    &&& if old(self).lifecycle.dropping {
                        error.says(ErrorKind::RuntimeBusy, "bucket deletion is in progress"@)
                    } else {
                        old(self).lifecycle.active_writes == usize::MAX && error.says(
                            ErrorKind::Corruption,
                            "LSM active write count overflow"@,
                        )
                    }
                },
            },
    {
        self.lifecycle.admit_write()
    }

    /// Closes the bucket for new writes.
    pub fn begin_drop(&mut self) -> (result: Result<LsmDropGuard>)
        ensures
            same_contents(*old(self), *final(self)),
            match result {
                Ok(_) => {
                    &&& !old(self).lifecycle.dropping
                    &&& final(self).lifecycle.dropping
                    &&& final(self).lifecycle.active_writes == old(self).lifecycle.active_writes
                },
                Err(error) => {
                    &&& old(self).lifecycle.dropping
                    &&& final(self).lifecycle == old(self).lifecycle
                    &&& error.says(
                        ErrorKind::RuntimeBusy,
                        "bucket deletion is already in progress"@,
                    )
                },
            },
    {
        self.lifecycle.begin_drop()
    }

    /// Fails while a drop is in progress or done.
    pub fn ensure_available(&self) -> (result: Result<()>)
        ensures
            match result {
                Ok(_) => !self.lifecycle.dropping,
                Err(error) => self.lifecycle.dropping && error.says(
                    ErrorKind::RuntimeBusy,
                    "bucket deletion is in progress"@,
                ),
            },
    {
        self.lifecycle.ensure_available()
    }

    /// Returns the tables that readers use now.
    pub fn current_version(&self) -> (version: Arc<LsmVersion>)
        ensures
            version == self.current_version,
    {
        Arc::clone(&self.current_version)
    }

    /// Makes readers use other tables.
    pub fn install_version(&mut self, version: LsmVersion)
        requires
            old(self).wf(),
            version.wf(),
        ensures
            final(self).wf(),
            *final(self).current_version == version,
            same_memory(*old(self), *final(self)),
    {
        self.current_version = Arc::new(version);
    }

    /// Returns handles on the tables that readers use now.
    pub fn tables_snapshot(&self) -> (tables: Vec<Arc<Table>>)
        ensures
            tables@ == self.current_version.tables@,
    {
        version::clone_handles(self.current_version.table_handles())
    }

    /// Returns the number of tables of level zero.
    pub fn l0_table_count(&self) -> (count: usize)
        ensures
            count == self.current_version.l0_count(self.current_version.tables@.len() as int),
    {
        self.current_version.l0_table_count()
    }

    /// Tells whether two tables of level zero overlap.
    pub fn l0_has_overlapping_tables(&self) -> (overlap: bool)
        ensures
            overlap == exists|i: int, j: int|
                0 <= i < j < self.current_version.tables@.len()
                    && #[trigger] self.current_version.l0_pair_overlaps(i, j),
    {
        self.current_version.l0_has_overlapping_tables()
    }

    /// Tells whether a memtable waits to be flushed.
    pub fn has_immutable_memtable_fast(&self) -> (has: bool)
        ensures
            has == (self.immutable_memtable_count != 0),
    {
        self.immutable_memtable_count != 0
    }

    /// Publishes one commit to the delta shards.
    pub fn publish_delta_operations(
        &mut self,
        operations: Vec<(BatchOperation, u32)>,
        sequence: Sequence,
    )
        requires
            old(self).wf(),
        ensures
            final(self).wf(),
            delta::set_published(
                old(self).delta_shards,
                final(self).delta_shards,
                operations@,
                sequence,
                u64::MAX,
            ),
            same_but_deltas(*old(self), *final(self)),
    {
        self.delta_shards.publish_operations(operations, sequence);
    }

    /// Publishes one commit to the delta shards; an epoch that reaches
    /// `max_epoch_bytes` is merged.
    pub fn publish_delta_operations_with_budget(
        &mut self,
        operations: Vec<(BatchOperation, u32)>,
        sequence: Sequence,
        max_epoch_bytes: u64,
    )
        requires
            old(self).wf(),
        ensures
            final(self).wf(),
            delta::set_published(
                old(self).delta_shards,
                final(self).delta_shards,
                operations@,
                sequence,
                max_epoch_bytes,
            ),
            same_but_deltas(*old(self), *final(self)),
    {
        self.delta_shards.publish_operations_with_budget(operations, sequence, max_epoch_bytes);
    }

    /// Returns the deltas of all shards.
    pub fn delta_snapshot(&self) -> (snapshot: DeltaSnapshot)
        requires
            self.delta_shards.wf(),
        ensures
            snapshot.wf(),
            snapshot.deltas@ == delta::deltas_of(self.delta_shards.shards@, delta::all_shards()),
            forall|record: Record| #[trigger]
                snapshot.has_record(record) <==> self.delta_shards.has_record(record),
            forall|tombstone: Tombstone| #[trigger]
                snapshot.has_tombstone(tombstone) <==> self.delta_shards.has_tombstone(tombstone),
            forall|i: int|
                0 <= i < snapshot.deltas@.len() ==> self.delta_shards.has_delta(
                    #[trigger] snapshot.deltas@[i],
                ),
    {
        self.delta_shards.snapshot_all()
    }

    /// Returns the deltas of the shard that holds the records of `key`.
    pub fn delta_snapshot_for_key(&self, key: &[u8]) -> (snapshot: DeltaSnapshot)
        requires
            self.delta_shards.wf(),
        ensures
            snapshot.wf(),
            snapshot.deltas@ == self.delta_shards.shards@[delta::shard_of(
                key@,
            )].open_epoch.deltas@,
    {
        self.delta_shards.snapshot_for_key(key)
    }

    /// Returns the deltas of the shards that hold the records of some of `keys`.
    pub fn delta_snapshot_for_keys(&self, keys: &Vec<Vec<u8>>) -> (snapshot: DeltaSnapshot)
        requires
            self.delta_shards.wf(),
        ensures
            snapshot.wf(),
            snapshot.deltas@ == delta::deltas_of(
                self.delta_shards.shards@,
                delta::shards_of(keys@),
            ),
            forall|record: Record| #[trigger]
                snapshot.has_record(record) <==> self.delta_shards.has_record(record) && exists|
                    k: int,
                |
                    0 <= k < keys@.len() && delta::shard_of((#[trigger] keys@[k])@)
                        == delta::shard_of(record.key.user_key),
            keys@.len() > 0 ==> forall|tombstone: Tombstone| #[trigger]
                snapshot.has_tombstone(tombstone) <==> self.delta_shards.has_tombstone(tombstone),
    {
        self.delta_shards.snapshot_for_keys(keys)
    }

    /// Tells whether a read at `read_sequence` needs no delta.
    pub fn delta_mirror_covers(&self, read_sequence: Sequence) -> (covers: bool)
        ensures
            covers == self.mirror_covers(read_sequence),
    {
        self.delta_mirror_sequence != 0 && self.delta_mirror_sequence >= read_sequence.get()
    }

    /// Records that the memtables hold what the deltas hold up to `sequence`.
    pub fn mark_delta_mirror_sequence(&mut self, sequence: Sequence)
        ensures
            final(self).delta_mirror_sequence == if sequence.0 > old(self).delta_mirror_sequence {
                sequence.0
            } else {
                old(self).delta_mirror_sequence
            },
            same_but_mirror(*old(self), *final(self)),
    {
        if sequence.get() > self.delta_mirror_sequence {
            self.delta_mirror_sequence = sequence.get();
        }
    }

    /// Returns the size estimate of all deltas.
    pub fn delta_estimated_bytes(&self) -> (bytes: u64)
        ensures
            bytes == self.delta_shards.bytes_of(self.delta_shards.shards@.len() as int),
    {
        self.delta_shards.estimated_bytes()
    }

    /// Returns the number of deltas, of deltas with point records, and of range
    /// deletions.
    pub fn delta_debug_counts(&self) -> (counts: (usize, usize, usize))
        ensures
            counts.0 == delta::stats_of(self.delta_shards.shards@).delta_count,
            counts.1 == delta::stats_of(self.delta_shards.shards@).point_delta_count,
            counts.2 == delta::stats_of(self.delta_shards.shards@).range_tombstone_count,
    {
        self.delta_shards.debug_counts()
    }

    /// Returns counts of the deltas, for diagnosis.
    pub fn delta_debug_stats(&self) -> (stats: DeltaDebugStats)
        ensures
            stats == delta::stats_of(self.delta_shards.shards@),
    {
        self.delta_shards.debug_stats()
    }

    /// Writes one operation of a commit to the active memtable.
    pub fn apply_operation(
        &mut self,
        operation: BatchOperation,
        sequence: Sequence,
        batch_index: u32,
    )
        requires
            old(self).wf(),
        ensures
            final(self).wf(),
            applied(*old(self), *final(self), operation@, sequence, batch_index),
    {
        match operation {
            BatchOperation::Put { key, value, .. } => {
                self.insert_record(
                    InternalKey::new(key, sequence, ValueKind::Put, batch_index),
                    Some(ValueRef::Inline(value)),
                );
            },
            BatchOperation::Delete { key, .. } => {
                self.insert_record(
                    InternalKey::new(key, sequence, ValueKind::PointDelete, batch_index),
                    None,
                );
            },
            BatchOperation::DeleteRange { range, .. } => {
                let ghost before = self.tombstones();
                let ghost added = Tombstone { range: range@, sequence, batch_index };
                let bytes: u64 = range_tombstone::range_tombstone_bytes(&range);
                assert(bytes == added.charged_bytes());
                self.range_tombstone_bytes = self.range_tombstone_bytes.saturating_add(bytes);
                self.range_tombstones.push(RangeTombstone { range, sequence, batch_index });
                proof {
                    assert(self.tombstones() =~= before.push(added));
                    assert(before.push(added).drop_last() =~= before);
                }
            },
        }
    }

    fn insert_record(&mut self, key: InternalKey, value: Option<ValueRef>)
        requires
            old(self).wf(),
        ensures
            final(self).wf(),
            same_but_active(*old(self), *final(self)),
            final(self).range_tombstones == old(self).range_tombstones,
            forall|record: Record| #[trigger]
                final(self).active_memtable@.contains(record) <==> record == (Record {
                    key: key@,
                    value: crate::blob::value_view(value),
                }) || (old(self).active_memtable@.contains(record) && record.key != key@),
    {
        let mut shared: Arc<Memtable> = Arc::new(Memtable::new());
        std::mem::swap(&mut shared, &mut self.active_memtable);
        let mut memtable: Memtable = match unshare(shared) {
            Ok(memtable) => memtable,
            Err(shared) => (*shared).clone(),
        };
        memtable.insert(key, value);
        self.active_memtable = Arc::new(memtable);
    }

    /// Queues the active memtable for a flush and starts an empty one. Tells whether
    /// there was anything to queue.
    pub fn freeze_active_memtable(&mut self, sequence: Sequence) -> (result: Result<bool>)
        requires
            old(self).wf(),
            old(self).immutable_memtables@.len() < usize::MAX,
        ensures
            final(self).wf(),
            match result {
                Ok(frozen) => {
                    &&& frozen == !(old(self).active_memtable@.len() == 0 && old(
                        self,
                    ).tombstones().len() == 0)
                    &&& if frozen {
                        is_frozen(*old(self), *final(self), sequence)
                    } else {
                        *final(self) == *old(self)
                    }
                },
                Err(error) => {
                    &&& *final(self) == *old(self)
                    &&& old(self).next_memtable_id == u64::MAX
                    &&& error.says(ErrorKind::Corruption, "memtable identity overflow"@)
                },
            },
    {
        if self.active_memtable.is_empty() && self.range_tombstones.len() == 0 {
            return Ok(false);
        }
        let id: u64 = self.next_memtable_id;
        if id == u64::MAX {
            return Err(Error::corruption("memtable identity overflow"));
        }
        let estimated_bytes: u64 = self.active_memtable.estimated_bytes().saturating_add(
            self.range_tombstone_bytes,
        );
        let mut memtable: Arc<Memtable> = Arc::new(Memtable::new());
        std::mem::swap(&mut memtable, &mut self.active_memtable);
        let mut range_tombstones: Vec<RangeTombstone> = Vec::new();
        std::mem::swap(&mut range_tombstones, &mut self.range_tombstones);
        self.range_tombstone_bytes = 0;
        self.immutable_memtables.push(
            ImmutableMemtable {
                id,
                memtable,
                range_tombstones: Arc::new(range_tombstones),
                estimated_bytes,
                freeze_sequence: sequence,
            },
        );
        self.immutable_memtable_count = self.immutable_memtables.len();
        self.next_memtable_id = id + 1;
        proof {
            assert(self.immutable_memtables@.drop_last() =~= old(self).immutable_memtables@);
            assert(self.tombstones() =~= Seq::<Tombstone>::empty());
        }
        Ok(true)
    }

    /// Lends the in-memory sources to a read, with the deltas it needs.
    pub fn memory_sources(&self, delta_snapshot: DeltaSnapshot) -> (memory: MemorySources)
        requires
            self.wf(),
            delta_snapshot.wf(),
        ensures
            memory.wf(),
            self.lends(memory),
            memory.delta_snapshot == delta_snapshot,
    {
        let active_memtable: Arc<Memtable> = Arc::clone(&self.active_memtable);
        let active_range_tombstones: Vec<RangeTombstone> = if self.range_tombstone_bytes == 0 {
            proof {
                charged_tombstones_count(self.tombstones());
            }
            Vec::new()
        } else {
            range_tombstone::clone_tombstones(&self.range_tombstones)
        };
        let immutable_memtables: Vec<ImmutableMemtable> = if self.has_immutable_memtable_fast() {
            sources::share_immutables(&self.immutable_memtables)
        } else {
            Vec::new()
        };
        proof {
            assert(range_tombstone::tombstones_of(active_range_tombstones@) =~= self.tombstones());
            assert(immutable_memtables@ =~= self.immutable_memtables@);
        }
        MemorySources { delta_snapshot, active_memtable, active_range_tombstones, immutable_memtables }
    }

    fn deltas_for_all(&self, read_sequence: Sequence) -> (snapshot: DeltaSnapshot)
        requires
            self.wf(),
        ensures
            snapshot.wf(),
            snapshot.deltas@ == self.deltas_read(delta::all_shards(), read_sequence),
            forall|record: Record| #[trigger]
                snapshot.has_record(record) <==> !self.mirror_covers(read_sequence)
                    && self.delta_shards.has_record(record),
            forall|tombstone: Tombstone| #[trigger]
                snapshot.has_tombstone(tombstone) <==> !self.mirror_covers(read_sequence)
                    && self.delta_shards.has_tombstone(tombstone),
            forall|i: int|
                0 <= i < snapshot.deltas@.len() ==> self.delta_shards.has_delta(
                    #[trigger] snapshot.deltas@[i],
                ),
    {
        if self.delta_mirror_covers(read_sequence) {
            DeltaSnapshot::empty()
        } else {
            self.delta_snapshot()
        }
    }

    /// Takes the in-memory sources of a read that may touch any key.
    pub fn scan_source_snapshot(&self, read_sequence: Sequence) -> (memory: MemorySources)
        requires
            self.wf(),
        ensures
            memory.wf(),
            self.lends(memory),
            memory.delta_snapshot.deltas@ == self.deltas_read(delta::all_shards(), read_sequence),
            forall|record: Record| #[trigger]
                memory.delta_snapshot.has_record(record) <==> !self.mirror_covers(read_sequence)
                    && self.delta_shards.has_record(record),
            forall|tombstone: Tombstone| #[trigger]
                memory.delta_snapshot.has_tombstone(tombstone) <==> !self.mirror_covers(
                    read_sequence,
                ) && self.delta_shards.has_tombstone(tombstone),
            forall|i: int|
                0 <= i < memory.delta_snapshot.deltas@.len() ==> self.delta_shards.has_delta(
                    #[trigger] memory.delta_snapshot.deltas@[i],
                ),
    {
        let delta_snapshot: DeltaSnapshot = self.deltas_for_all(read_sequence);
        self.memory_sources(delta_snapshot)
    }

    /// Takes the sources for reads of any key at `read_sequence`.
    pub fn point_read_snapshot(&self, read_sequence: Sequence) -> (snapshot: LsmPointReadSnapshot)
        requires
            self.wf(),
        ensures
            self.is_snapshot(snapshot, delta::all_shards(), read_sequence),
            forall|record: Record| #[trigger]
                snapshot.records().contains(record) <==> self.read_records(read_sequence).contains(
                    record,
                ),
            forall|tombstone: Tombstone|
                (snapshot.memory.has_tombstone(tombstone) || snapshot.version.has_tombstone(
                    tombstone,
                )) <==> #[trigger] self.reads_tombstone(read_sequence, tombstone),
    {
        // The in-memory sources are taken before the tables: a flush shows its table
        // before it drops the memtable, so a record may be seen twice but not missed.
        let memory: MemorySources = self.scan_source_snapshot(read_sequence);
        let snapshot = LsmPointReadSnapshot { version: self.current_version(), memory };
        proof {
            assert forall|record: Record| #[trigger]
                snapshot.records().contains(record) <==> self.read_records(
                    read_sequence,
                ).contains(record) by {
                assert(snapshot.memory.queued_record(record) <==> self.queued_record(record)) by {
                    self.queued_agrees(snapshot.memory, record, arbitrary());
                }
            }
            assert forall|tombstone: Tombstone|
                (snapshot.memory.has_tombstone(tombstone) || snapshot.version.has_tombstone(
                    tombstone,
                )) <==> #[trigger] self.reads_tombstone(read_sequence, tombstone) by {
                self.queued_agrees(snapshot.memory, arbitrary(), tombstone);
            }
        }
        snapshot
    }

    /// Sources that a tree lends hold what its queue holds.
    pub proof fn queued_agrees(&self, memory: MemorySources, record: Record, tombstone: Tombstone)
        requires
            self.lends(memory),
        ensures
            memory.queued_record(record) <==> self.queued_record(record),
            memory.queued_tombstone(tombstone) <==> self.queued_tombstone(tombstone),
    {
        if memory.queued_record(record) {
            let i = choose|i: int|
                0 <= i < memory.immutable_memtables@.len() && (
                #[trigger] memory.immutable_memtables@[i]).memtable@.contains(record);
            assert(self.immutable_memtables@[i].memtable@.contains(record));
        }
        if self.queued_record(record) {
            let i = choose|i: int|
                0 <= i < self.immutable_memtables@.len() && (
                #[trigger] self.immutable_memtables@[i]).memtable@.contains(record);
            assert(memory.immutable_memtables@[i].memtable@.contains(record));
        }
        if memory.queued_tombstone(tombstone) {
            let i = choose|i: int|
                0 <= i < memory.immutable_memtables@.len() && (
                #[trigger] memory.immutable_memtables@[i]).tombstones().contains(tombstone);
            assert(self.immutable_memtables@[i].tombstones().contains(tombstone));
        }
        if self.queued_tombstone(tombstone) {
            let i = choose|i: int|
                0 <= i < self.immutable_memtables@.len() && (
                #[trigger] self.immutable_memtables@[i]).tombstones().contains(tombstone);
            assert(memory.immutable_memtables@[i].tombstones().contains(tombstone));
        }
    }

    /// Takes the sources for reads of `key` at `read_sequence`.
    pub fn point_read_snapshot_for_key(&self, key: &[u8], read_sequence: Sequence) -> (snapshot:
        LsmPointReadSnapshot)
        requires
            self.wf(),
        ensures
            self.is_key_snapshot(snapshot, key@, read_sequence),
    {
        let delta_snapshot: DeltaSnapshot = if self.delta_mirror_covers(read_sequence) {
            DeltaSnapshot::empty()
        } else {
            self.delta_snapshot_for_key(key)
        };
        let memory: MemorySources = self.memory_sources(delta_snapshot);
        let snapshot = LsmPointReadSnapshot { version: self.current_version(), memory };
        proof {
            if self.mirror_covers(read_sequence) {
                assert(snapshot.memory.delta_snapshot.deltas@ =~= Seq::<Arc<InMemoryDelta>>::empty());
            }
        }
        snapshot
    }

    /// Takes the sources for reads of `keys` at `read_sequence`.
    pub fn point_read_snapshot_for_keys(&self, keys: &Vec<Vec<u8>>, read_sequence: Sequence) -> (
        snapshot: LsmPointReadSnapshot)
        requires
            self.wf(),
        ensures
            self.is_snapshot(snapshot, delta::shards_of(keys@), read_sequence),
            forall|k: int, record: Record|
                #![trigger keys@[k], snapshot.records().contains(record)]
                0 <= k < keys@.len() && record.key.user_key == keys@[k]@ ==> (
                snapshot.records().contains(record) <==> self.read_records(read_sequence).contains(
                    record,
                )),
            keys@.len() > 0 ==> forall|tombstone: Tombstone|
                (snapshot.memory.has_tombstone(tombstone) || snapshot.version.has_tombstone(
                    tombstone,
                )) <==> #[trigger] self.reads_tombstone(read_sequence, tombstone),
    {
        let delta_snapshot: DeltaSnapshot = if self.delta_mirror_covers(read_sequence) {
            DeltaSnapshot::empty()
        } else {
            self.delta_snapshot_for_keys(keys)
        };
        let ghost deltas = delta_snapshot;
        proof {
            assert(deltas.deltas@ =~= self.deltas_read(delta::shards_of(keys@), read_sequence));
        }
        let memory: MemorySources = self.memory_sources(delta_snapshot);
        let snapshot = LsmPointReadSnapshot { version: self.current_version(), memory };
        proof {
            assert forall|k: int, record: Record|
                #![trigger keys@[k], snapshot.records().contains(record)]
                0 <= k < keys@.len() && record.key.user_key == keys@[k]@ implies (
            snapshot.records().contains(record) <==> self.read_records(read_sequence).contains(
                record,
            )) by {
                self.queued_agrees(snapshot.memory, record, arbitrary());
                assert(delta::shard_of(keys@[k]@) == delta::shard_of(record.key.user_key));
                assert(snapshot.memory.delta_snapshot.has_record(record)
                    <==> deltas.has_record(record));
            }
            if keys@.len() > 0 {
                assert forall|tombstone: Tombstone|
                    (snapshot.memory.has_tombstone(tombstone) || snapshot.version.has_tombstone(
                        tombstone,
                    )) <==> #[trigger] self.reads_tombstone(read_sequence, tombstone) by {
                    self.queued_agrees(snapshot.memory, arbitrary(), tombstone);
                    assert(snapshot.memory.delta_snapshot.has_tombstone(tombstone)
                        <==> deltas.has_tombstone(tombstone));
                }
            }
        }
        snapshot
    }

    /// Reads one key at `read_sequence`. A value in blob storage is not fetched.
    pub fn read_visible_point_value(&self, key: &[u8], read_sequence: Sequence) -> (result: Result<
        Option<PointValueSource>,
    >)
        requires
            self.wf(),
        ensures
            self.answers(key@, read_sequence, result),
            match result {
                Ok(found) => self.finds(key@, read_sequence, read::source_view(found)),
                Err(error) => self.breaks(key@, read_sequence) && error.says(
                    ErrorKind::Corruption,
                    "put record is missing value bytes"@,
                ),
            },
    {
        let snapshot: LsmPointReadSnapshot = self.point_read_snapshot_for_key(key, read_sequence);
        let result = read::read_visible_point_value_in_snapshot(&snapshot, key, read_sequence);
        proof {
            let found = if result is Ok {
                read::source_view(result->Ok_0)
            } else {
                None
            };
            snapshot_answers_for_tree(*self, snapshot, key@, read_sequence, found);
        }
        result
    }

    /// Reads one key at `read_sequence`; `fetched` holds the bytes of a value in blob
    /// storage, and is `None` for a database that has none.
    pub fn read_visible_point(
        &self,
        key: &[u8],
        read_sequence: Sequence,
        fetched: Option<Vec<u8>>,
    ) -> (result: Result<Option<Vec<u8>>>)
        requires
            self.wf(),
        ensures
            self.gives(key@, read_sequence, fetched, result),
            match result {
                Ok(None) => self.finds(key@, read_sequence, None),
                Ok(Some(value)) => {
                    ||| self.finds(key@, read_sequence, Some(SourceView::Value(value@)))
                    ||| fetched is Some && value@ == fetched->0@ && self.finds_blob(
                        key@,
                        read_sequence,
                    )
                },
                Err(error) => {
                    ||| self.breaks(key@, read_sequence) && error.says(
                        ErrorKind::Corruption,
                        "put record is missing value bytes"@,
                    )
                    ||| fetched is None && self.finds_blob(key@, read_sequence) && error.says(
                        ErrorKind::Corruption,
                        point_value::no_blob_storage_text(),
                    )
                },
            },
    {
        match self.read_visible_point_value(key, read_sequence) {
            Ok(None) => Ok(None),
            Ok(Some(source)) => {
                let ghost seen = source@;
                proof {
                    if let SourceView::Blob(place) = seen {
                        assert(self.finds(key@, read_sequence, Some(SourceView::Blob(place))));
                    }
                }
                match source.into_point_value(fetched) {
                    Ok(value) => Ok(Some(value.into_value())),
                    Err(error) => Err(error),
                }
            },
            Err(error) => Err(error),
        }
    }

    /// What a read of `key` at `read_sequence` gives back when a value in blob storage has been
    /// fetched: the fetched bytes stand for such a value.
    pub open spec fn gives(
        &self,
        key: Seq<u8>,
        read_sequence: Sequence,
        fetched: Option<Vec<u8>>,
        result: Result<Option<Vec<u8>>>,
    ) -> bool {
        match self.takes(key, read_sequence) {
            None => result matches Ok(None),
            Some(record) => if record.key.kind != ValueKind::Put || self.covers(
                record,
                read_sequence,
            ) {
                result matches Ok(None)
            } else {
                match (read::value_of(record), fetched) {
                    (Some(SourceView::Value(value)), _) => result matches Ok(Some(bytes))
                        && bytes@ == value,
                    (Some(SourceView::Blob(_)), Some(value)) => result matches Ok(Some(bytes))
                        && bytes@ == value@,
                    (Some(SourceView::Blob(_)), None) => result matches Err(error) && error.says(
                        ErrorKind::Corruption,
                        point_value::no_blob_storage_text(),
                    ),
                    (None, _) => result matches Err(error) && error.says(
                        ErrorKind::Corruption,
                        "put record is missing value bytes"@,
                    ),
                }
            },
        }
    }

    /// Whether a read of `key` may find a value in blob storage.
    pub open spec fn finds_blob(&self, key: Seq<u8>, read_sequence: Sequence) -> bool {
        exists|place: crate::blob::ValueView| #[trigger]
            self.finds(key, read_sequence, Some(SourceView::Blob(place)))
    }
}

/// Takes a memtable out of its shared handle with `std::sync::Arc::try_unwrap`: what comes back
/// is the memtable itself where the handle was the only one, and the same handle otherwise. Which
/// of the two it is is not said.
#[verifier::external_body]
fn unshare(shared: Arc<Memtable>) -> (result: std::result::Result<Memtable, Arc<Memtable>>)
    ensures
        match result {
            Ok(memtable) => memtable == *shared,
            Err(kept) => kept == shared,
        },
{
    Arc::try_unwrap(shared)
}

/// Whether everything but the lifecycle is the same.
pub open spec fn same_contents(a: LsmTree, b: LsmTree) -> bool {
    b == (LsmTree { lifecycle: b.lifecycle, ..a })
}

/// Whether everything but the tables is the same.
pub open spec fn same_memory(a: LsmTree, b: LsmTree) -> bool {
    b == (LsmTree { current_version: b.current_version, ..a })
}

/// Whether everything but the deltas is the same.
pub open spec fn same_but_deltas(a: LsmTree, b: LsmTree) -> bool {
    b == (LsmTree { delta_shards: b.delta_shards, ..a })
}

/// Whether everything but the mirrored sequence is the same.
pub open spec fn same_but_mirror(a: LsmTree, b: LsmTree) -> bool {
    b == (LsmTree { delta_mirror_sequence: b.delta_mirror_sequence, ..a })
}

/// Whether everything but the active memtable and its range deletions is the same.
pub open spec fn same_but_active(a: LsmTree, b: LsmTree) -> bool {
    b == (LsmTree {
        active_memtable: b.active_memtable,
        range_tombstones: b.range_tombstones,
        range_tombstone_bytes: b.range_tombstone_bytes,
        ..a
    })
}

/// Whether `after` is `before` with one operation applied: a point operation adds its record in
/// the place of one of the same key, and a range deletion is added behind the others.
pub open spec fn applied(
    before: LsmTree,
    after: LsmTree,
    operation: Operation,
    sequence: Sequence,
    batch_index: u32,
) -> bool {
    &&& same_but_active(before, after)
    &&& match operation.record(sequence, batch_index) {
        Some(added) => {
            &&& after.tombstones() == before.tombstones()
            &&& forall|record: Record| #[trigger]
                after.active_memtable@.contains(record) <==> record == added || (
                before.active_memtable@.contains(record) && record.key != added.key)
        },
        None => {
            &&& after.active_memtable == before.active_memtable
            &&& operation.tombstone(sequence, batch_index) matches Some(added)
                && after.tombstones() == before.tombstones().push(added)
        },
    }
}

/// Whether `after` is `before` with the active memtable queued.
pub open spec fn is_frozen(before: LsmTree, after: LsmTree, sequence: Sequence) -> bool {
    let queued = after.immutable_memtables@.last();
    &&& after.immutable_memtables@.len() == before.immutable_memtables@.len() + 1
    &&& after.immutable_memtables@.drop_last() == before.immutable_memtables@
    &&& queued.memtable == before.active_memtable
    &&& queued.tombstones() == before.tombstones()
    &&& queued.freeze_sequence == sequence
    &&& queued.id == before.next_memtable_id
    &&& queued.estimated_bytes == before.active_memtable.size().saturating_add(
        before.range_tombstone_bytes,
    )
    &&& after.active_memtable@.len() == 0
    &&& after.tombstones().len() == 0
    &&& after.next_memtable_id == before.next_memtable_id + 1
    &&& after.current_version == before.current_version
    &&& after.delta_shards == before.delta_shards
    &&& after.delta_mirror_sequence == before.delta_mirror_sequence
    &&& after.options == before.options
    &&& after.lifecycle == before.lifecycle
}

/// Queuing the active memtable changes nothing that a read sees.
pub proof fn freeze_keeps_contents(
    before: LsmTree,
    after: LsmTree,
    sequence: Sequence,
    record: Record,
    tombstone: Tombstone,
)
    requires
        is_frozen(before, after, sequence),
    ensures
        after.has_record(record) <==> before.has_record(record),
        after.has_tombstone(tombstone) <==> before.has_tombstone(tombstone),
{
    let count = before.immutable_memtables@.len() as int;
    assert(!after.active_memtable@.contains(record));
    assert(!after.tombstones().contains(tombstone));
    if after.queued_record(record) {
        let i = choose|i: int|
            0 <= i < after.immutable_memtables@.len() && (
            #[trigger] after.immutable_memtables@[i]).memtable@.contains(record);
        if i < count {
            assert(after.immutable_memtables@.drop_last()[i] == before.immutable_memtables@[i]);
            assert(before.immutable_memtables@[i].memtable@.contains(record));
        }
    }
    if before.queued_record(record) {
        let i = choose|i: int|
            0 <= i < count && (#[trigger] before.immutable_memtables@[i]).memtable@.contains(
                record,
            );
        assert(after.immutable_memtables@.drop_last()[i] == before.immutable_memtables@[i]);
        assert(after.immutable_memtables@[i].memtable@.contains(record));
    }
    if before.active_memtable@.contains(record) {
        assert(after.immutable_memtables@[count].memtable@.contains(record));
    }
    if after.queued_tombstone(tombstone) {
        let i = choose|i: int|
            0 <= i < after.immutable_memtables@.len() && (
            #[trigger] after.immutable_memtables@[i]).tombstones().contains(tombstone);
        if i < count {
            assert(after.immutable_memtables@.drop_last()[i] == before.immutable_memtables@[i]);
            assert(before.immutable_memtables@[i].tombstones().contains(tombstone));
        }
    }
    if before.queued_tombstone(tombstone) {
        let i = choose|i: int|
            0 <= i < count && (#[trigger] before.immutable_memtables@[i]).tombstones().contains(
                tombstone,
            );
        assert(after.immutable_memtables@.drop_last()[i] == before.immutable_memtables@[i]);
        assert(after.immutable_memtables@[i].tombstones().contains(tombstone));
    }
    if before.tombstones().contains(tombstone) {
        assert(after.immutable_memtables@[count].tombstones().contains(tombstone));
    }
}

proof fn charged_tombstones_count(tombstones: Seq<Tombstone>)
    ensures
        delta::tombstone_bytes(tombstones) == 0 ==> tombstones.len() == 0,
{
}

/// A snapshot taken for a key answers a read of the key as the whole tree does.
pub proof fn snapshot_answers_for_tree(
    tree: LsmTree,
    snapshot: LsmPointReadSnapshot,
    key: Seq<u8>,
    read_sequence: Sequence,
    found: Option<SourceView>,
)
    requires
        tree.wf(),
        tree.is_key_snapshot(snapshot, key, read_sequence),
    ensures
        snapshot.finds(key, read_sequence, found) <==> tree.finds(key, read_sequence, found),
        snapshot.breaks(key, read_sequence) <==> tree.breaks(key, read_sequence),
        snapshot.takes(key, read_sequence) == tree.takes(key, read_sequence),
        forall|record: Record| #[trigger]
            snapshot.covers(record, read_sequence) <==> tree.covers(record, read_sequence),
{
    assert(snapshot.point_sources() =~= tree.point_sources(key, read_sequence));
    let own = delta::shard_of(key);
    let shard = tree.delta_shards.shards@[own];
    let memory = snapshot.memory;
    assert(memory.runs() =~= tree.key_runs(key, read_sequence));
    assert forall|record: Record|
        record.key.user_key == key implies (#[trigger] snapshot.records().contains(record)
        <==> tree.read_records(read_sequence).contains(record)) by {
        key_snapshot_record(tree, snapshot, key, read_sequence, record);
    }
    assert forall|record: Record|
        record.key.user_key == key implies (snapshot.records().contains(record)
        <==> #[trigger] tree.read_records(read_sequence).contains(record)) by {
        key_snapshot_record(tree, snapshot, key, read_sequence, record);
    }
    assert forall|record: Record| #[trigger]
        snapshot.covers(record, read_sequence) <==> tree.covers(record, read_sequence) by {
        key_snapshot_covers(tree, snapshot, key, read_sequence, record);
    }
    assert forall|record: Record| #[trigger]
        snapshot.decides(key, read_sequence, record) <==> tree.decides(
            key,
            read_sequence,
            record,
        ) by {}
    assert forall|record: Record|
        snapshot.decides(key, read_sequence, record) <==> #[trigger] tree.decides(
            key,
            read_sequence,
            record,
        ) by {}
}

/// A snapshot with the deltas of some shards reads a key of these shards as the tree does.
pub proof fn shard_snapshot_reads_as_tree(
    tree: LsmTree,
    snapshot: LsmPointReadSnapshot,
    chosen: Set<int>,
    key: Seq<u8>,
    read_sequence: Sequence,
)
    requires
        tree.wf(),
        tree.is_snapshot(snapshot, chosen, read_sequence),
        chosen.contains(delta::shard_of(key)),
    ensures
        snapshot.takes(key, read_sequence) == tree.takes(key, read_sequence),
{
    let queued = tree.immutable_memtables@.len();
    let first = tree.point_sources(key, read_sequence).take(1 + queued as int);
    let tables = read::table_sources(tree.current_version.tables@);
    let own = if tree.mirror_covers(read_sequence) {
        Seq::<Arc<InMemoryDelta>>::empty()
    } else {
        tree.delta_shards.shards@[delta::shard_of(key)].open_epoch.deltas@
    };
    let all = snapshot.memory.delta_snapshot.deltas@;
    assert(snapshot.point_sources() =~= first + read::delta_sources(all) + tables);
    assert(tree.point_sources(key, read_sequence) =~= first + read::delta_sources(own) + tables);
    if !tree.mirror_covers(read_sequence) {
        let shards = tree.delta_shards.shards@;
        chosen_shards_read_as_own(tree.delta_shards, first, chosen, key, read_sequence, 16);
        assert(shards.take(16) =~= shards);
    }
    read::later_sources_agree(
        first + read::delta_sources(all),
        first + read::delta_sources(own),
        tables,
        key,
        read_sequence,
    );
}

proof fn chosen_shards_read_as_own(
    set: DeltaShardSet,
    first: Seq<PointSource>,
    chosen: Set<int>,
    key: Seq<u8>,
    read_sequence: Sequence,
    count: int,
)
    requires
        set.wf(),
        chosen.contains(delta::shard_of(key)),
        0 <= count <= 16,
    ensures
        ({
            let own = if delta::shard_of(key) < count {
                set.shards@[delta::shard_of(key)].open_epoch.deltas@
            } else {
                Seq::<Arc<InMemoryDelta>>::empty()
            };
            read::taken(
                first + read::delta_sources(delta::deltas_of(set.shards@.take(count), chosen)),
                key,
                read_sequence,
            ) == read::taken(first + read::delta_sources(own), key, read_sequence)
        }),
    decreases count,
{
    let shards = set.shards@.take(count);
    if count > 0 {
        let at = count - 1;
        let shard = set.shards@[at];
        let before = delta::deltas_of(set.shards@.take(at), chosen);
        assert(shards.drop_last() =~= set.shards@.take(at));
        assert(shards.last() == shard);
        chosen_shards_read_as_own(set, first, chosen, key, read_sequence, at);
        if chosen.contains(at) {
            let added = read::delta_sources(shard.open_epoch.deltas@);
            let earlier = first + read::delta_sources(before);
            assert(first + read::delta_sources(delta::deltas_of(shards, chosen)) =~= earlier
                + added);
            if at == delta::shard_of(key) {
                assert(first + read::delta_sources(Seq::<Arc<InMemoryDelta>>::empty()) =~= first);
                read::later_sources_agree(earlier, first, added, key, read_sequence);
            } else {
                assert forall|i: int, record: Record|
                    0 <= i < added.len() && #[trigger] added[i].records.contains(
                        record,
                    ) implies record.key.user_key != key by {
                    assert(shard.open_epoch.deltas@[i].memtable@.contains(record));
                    assert(shard.has_record(record));
                }
                read::foreign_sources_are_passed(earlier, added, key, read_sequence);
            }
        }
    }
}

/// A snapshot taken for a key holds the records of the key that the tree holds.
pub proof fn key_snapshot_record(
    tree: LsmTree,
    snapshot: LsmPointReadSnapshot,
    key: Seq<u8>,
    read_sequence: Sequence,
    record: Record,
)
    requires
        tree.wf(),
        tree.is_key_snapshot(snapshot, key, read_sequence),
        record.key.user_key == key,
    ensures
        snapshot.records().contains(record) <==> tree.read_records(read_sequence).contains(record),
{
    let shard = tree.delta_shards.shards@[delta::shard_of(key)];
    tree.queued_agrees(snapshot.memory, record, arbitrary());
    delta::own_shard_is_complete(tree.delta_shards, key, record, arbitrary());
    if !tree.mirror_covers(read_sequence) {
        let deltas = snapshot.memory.delta_snapshot;
        assert(deltas.deltas@ == shard.open_epoch.deltas@);
        if deltas.has_record(record) {
            let i = choose|i: int|
                0 <= i < deltas.deltas@.len() && (#[trigger] deltas.deltas@[i]).memtable@.contains(
                    record,
                );
            assert(shard.open_epoch.deltas@[i].memtable@.contains(record));
        }
        if shard.has_record(record) {
            let i = choose|i: int|
                0 <= i < shard.open_epoch.deltas@.len() && (
                #[trigger] shard.open_epoch.deltas@[i]).memtable@.contains(record);
            assert(deltas.deltas@[i].memtable@.contains(record));
        }
    }
}

/// A snapshot taken for a key holds the range deletions that the tree holds.
pub proof fn key_snapshot_tombstone(
    tree: LsmTree,
    snapshot: LsmPointReadSnapshot,
    key: Seq<u8>,
    read_sequence: Sequence,
    tombstone: Tombstone,
)
    requires
        tree.wf(),
        tree.is_key_snapshot(snapshot, key, read_sequence),
    ensures
        snapshot.memory.has_tombstone(tombstone) || snapshot.version.has_tombstone(tombstone)
            <==> tree.reads_tombstone(read_sequence, tombstone),
{
    let shard = tree.delta_shards.shards@[delta::shard_of(key)];
    tree.queued_agrees(snapshot.memory, arbitrary(), tombstone);
    let any: Record = arbitrary();
    let record = Record {
        key: crate::internal_key::RecordKey { user_key: key, ..any.key },
        value: any.value,
    };
    delta::own_shard_is_complete(tree.delta_shards, key, record, tombstone);
    if !tree.mirror_covers(read_sequence) {
        let deltas = snapshot.memory.delta_snapshot;
        assert(deltas.deltas@ == shard.open_epoch.deltas@);
        if deltas.has_tombstone(tombstone) {
            let i = choose|i: int|
                0 <= i < deltas.deltas@.len() && (
                #[trigger] deltas.deltas@[i]).tombstones().contains(tombstone);
            assert(shard.open_epoch.deltas@[i].tombstones().contains(tombstone));
        }
        if shard.has_tombstone(tombstone) {
            let i = choose|i: int|
                0 <= i < shard.open_epoch.deltas@.len() && (
                #[trigger] shard.open_epoch.deltas@[i]).tombstones().contains(tombstone);
            assert(deltas.deltas@[i].tombstones().contains(tombstone));
        }
    }
}

proof fn key_snapshot_covers(
    tree: LsmTree,
    snapshot: LsmPointReadSnapshot,
    key: Seq<u8>,
    read_sequence: Sequence,
    record: Record,
)
    requires
        tree.wf(),
        tree.is_key_snapshot(snapshot, key, read_sequence),
    ensures
        snapshot.covers(record, read_sequence) <==> tree.covers(record, read_sequence),
{
    assert forall|tombstone: Tombstone| #[trigger]
        tombstone.covers(
            record.key.user_key,
            record.key.sequence,
            record.key.batch_index,
            read_sequence,
        ) implies (snapshot.memory.has_tombstone(tombstone) || snapshot.version.has_tombstone(
        tombstone,
    ) <==> tree.reads_tombstone(read_sequence, tombstone)) by {
        key_snapshot_tombstone(tree, snapshot, key, read_sequence, tombstone);
    }
}

/// Once the memtables hold every commit up to one, reads up to that commit need no delta, and reads
/// of later commits do. A commit that is marked again, or an earlier one, changes nothing.
pub proof fn mirror_serves_reads_up_to_its_mark(
    before: LsmTree,
    after: LsmTree,
    mark: Sequence,
    read_sequence: Sequence,
)
    requires
        mark.0 > 0,
        after.delta_mirror_sequence == if mark.0 > before.delta_mirror_sequence {
            mark.0
        } else {
            before.delta_mirror_sequence
        },
    ensures
        read_sequence.0 <= mark.0 ==> after.mirror_covers(read_sequence),
        before.mirror_covers(read_sequence) ==> after.mirror_covers(read_sequence),
        after.mirror_covers(read_sequence) ==> read_sequence.0 <= mark.0 || before.mirror_covers(
            read_sequence,
        ),
        before.delta_mirror_sequence == 0 ==> !before.mirror_covers(read_sequence),
        before.mirror_covers(read_sequence) ==> read_sequence.0 <= before.delta_mirror_sequence,
{
}

/// A read finds only what some source holds: where the mirror serves it, the deltas are left out,
/// and everything that the memtables, their queue and the tables hold is always looked at.
pub proof fn reads_look_at_every_source(
    tree: LsmTree,
    read_sequence: Sequence,
    record: Record,
    tombstone: Tombstone,
    i: int,
)
    ensures
        tree.active_memtable@.contains(record) ==> tree.read_records(read_sequence).contains(
            record,
        ),
        tree.tombstones().contains(tombstone) ==> tree.reads_tombstone(read_sequence, tombstone),
        0 <= i < tree.immutable_memtables@.len() && tree.immutable_memtables@[i].memtable@.contains(
            record,
        ) ==> tree.read_records(read_sequence).contains(record),
        0 <= i < tree.immutable_memtables@.len()
            && tree.immutable_memtables@[i].tombstones().contains(tombstone)
            ==> tree.reads_tombstone(read_sequence, tombstone),
        0 <= i < tree.current_version.tables@.len()
            && tree.current_version.tables@[i].records@.contains(record) ==> tree.read_records(
            read_sequence,
        ).contains(record),
        0 <= i < tree.current_version.tables@.len()
            && tree.current_version.tables@[i].tombstones().contains(tombstone)
            ==> tree.reads_tombstone(read_sequence, tombstone),
        read_sequence.0 > tree.delta_mirror_sequence && 0 <= i < 16
            && tree.delta_shards.shards@[i].has_record(record) ==> tree.read_records(
            read_sequence,
        ).contains(record),
        read_sequence.0 > tree.delta_mirror_sequence && 0 <= i < 16
            && tree.delta_shards.shards@[i].has_tombstone(tombstone) ==> tree.reads_tombstone(
            read_sequence,
            tombstone,
        ),
{
}

/// Queuing the active memtable empties it. What it held comes last in the queue, marked with the
/// commit at which it was queued, under an identifier that no queued memtable has, and is charged
/// for its records and range deletions.
pub proof fn frozen_memtable_is_queued_last(
    before: LsmTree,
    after: LsmTree,
    sequence: Sequence,
    i: int,
)
    requires
        before.wf(),
        is_frozen(before, after, sequence),
        0 <= i < before.immutable_memtables@.len(),
    ensures
        after.immutable_memtables@[i] == before.immutable_memtables@[i],
        after.immutable_memtables@.last().memtable@ == before.active_memtable@,
        after.immutable_memtables@.last().tombstones() == before.tombstones(),
        after.immutable_memtables@.last().freeze_sequence == sequence,
        before.immutable_memtables@[i].id < after.immutable_memtables@.last().id,
        after.immutable_memtables@.last().id < after.next_memtable_id,
        before.active_memtable.size() + before.range_tombstone_bytes <= u64::MAX
            ==> after.immutable_memtables@.last().estimated_bytes == before.active_memtable.size()
            + before.range_tombstone_bytes,
        after.active_memtable@.len() == 0,
        after.tombstones().len() == 0,
        after.current_version == before.current_version,
        after.delta_shards == before.delta_shards,
        after.delta_mirror_sequence == before.delta_mirror_sequence,
{
    assert(after.immutable_memtables@.drop_last()[i] == before.immutable_memtables@[i]);
}

/// An operation changes the active memtable alone: a put or a deletion adds its record and takes
/// away at most the record that it replaces, and a range deletion adds itself and takes away
/// nothing.
pub proof fn operations_write_to_the_active_memtable(
    before: LsmTree,
    after: LsmTree,
    operation: Operation,
    sequence: Sequence,
    batch_index: u32,
    record: Record,
    tombstone: Tombstone,
)
    requires
        applied(before, after, operation, sequence, batch_index),
    ensures
        operation matches Operation::Put(key, value) ==> exists|added: Record| #[trigger]
            after.active_memtable@.contains(added) && added.key.user_key == key
                && added.key.sequence == sequence && added.key.batch_index == batch_index
                && added.key.kind is Put && added.value == Some(
                crate::blob::ValueView::Inline(value),
            ),
        operation matches Operation::Delete(key) ==> exists|added: Record| #[trigger]
            after.active_memtable@.contains(added) && added.key.user_key == key
                && added.key.sequence == sequence && added.key.batch_index == batch_index
                && added.key.kind is PointDelete,
        operation matches Operation::DeleteRange(range) ==> after.tombstones().contains(
            (Tombstone { range, sequence, batch_index }),
        ) && after.active_memtable == before.active_memtable,
        before.active_memtable@.contains(record) && record.key.sequence != sequence
            ==> after.active_memtable@.contains(record),
        before.tombstones().contains(tombstone) ==> after.tombstones().contains(tombstone),
        after.immutable_memtables == before.immutable_memtables,
        after.current_version == before.current_version,
        after.delta_shards == before.delta_shards,
{
    match operation {
        Operation::Put(_, _) => {
            let added = operation.record(sequence, batch_index)->0;
            assert(after.active_memtable@.contains(added));
        },
        Operation::Delete(_) => {
            let added = operation.record(sequence, batch_index)->0;
            assert(after.active_memtable@.contains(added));
        },
        Operation::DeleteRange(range) => {
            let added = Tombstone { range, sequence, batch_index };
            let count = before.tombstones().len() as int;
            assert(after.tombstones()[count] == added);
            if before.tombstones().contains(tombstone) {
                let i = choose|i: int|
                    0 <= i < before.tombstones().len() && before.tombstones()[i] == tombstone;
                assert(after.tombstones()[i] == tombstone);
            }
        },
    }
}

} // verus!
