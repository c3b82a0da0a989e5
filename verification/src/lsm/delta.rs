//! Sharded deltas: commits that reads see before they reach a memtable.
use std::sync::Arc;
use vstd::prelude::*;
use vstd::slice::slice_to_vec;

use crate::blob;
use crate::blob::ValueRef;
use crate::internal_key::{InternalKey, ValueKind};
use crate::lsm::sources;
use crate::lsm::sources::{DeltaSnapshot, InMemoryDelta};
use crate::memtable;
use crate::memtable::{Memtable, MemtableEntry, Record};
use crate::range_tombstone;
use crate::range_tombstone::{RangeTombstone, Tombstone};
use crate::types::{KeyRange, Sequence};
use crate::write_batch::{BatchOperation, Operation};

verus! {

/// Number of delta shards of a tree.
pub const DELTA_SHARD_COUNT: usize = 16;

/// Number of deltas at which the open epoch of a shard is merged.
pub const DELTA_EPOCH_MAX_DELTAS: usize = 8;

/// The FNV-1a hash of a key.
pub open spec fn key_hash(key: Seq<u8>) -> u64
    decreases key.len(),
{
    if key.len() == 0 {
        0xcbf2_9ce4_8422_2325
    } else {
        (key_hash(key.drop_last()) ^ (key.last() as u64)).wrapping_mul(0x0000_0100_0000_01b3)
    }
}

/// The shard that holds the point records of a key.
pub open spec fn shard_of(key: Seq<u8>) -> int {
    key_hash(key) as int % 16
}

/// Hashes a key, the same way in every process.
pub fn stable_key_hash(key: &[u8]) -> (hash: u64)
    ensures
        hash == key_hash(key@),
{
    let mut hash: u64 = 0xcbf2_9ce4_8422_2325;
    let mut i: usize = 0;
    proof {
        assert(key@.take(0) =~= Seq::<u8>::empty());
    }
    while i < key.len()
        invariant
            i <= key@.len(),
            hash == key_hash(key@.take(i as int)),
        decreases key@.len() - i,
    {
        proof {
            assert(key@.take(i + 1).drop_last() =~= key@.take(i as int));
            assert(key@.take(i + 1).last() == key@[i as int]);
        }
        hash = hash ^ (key[i] as u64);
        hash = hash.wrapping_mul(0x0000_0100_0000_01b3);
        i += 1;
    }
    proof {
        assert(key@.take(i as int) =~= key@);
    }
    hash
}

/// A set of records after one more was written; a record replaces the one of its key.
pub open spec fn overlay(records: Set<Record>, added: Record) -> Set<Record> {
    Set::new(
        |record: Record| record == added || (records.contains(record) && record.key != added.key),
    )
}

/// A set of records after a run was written over it.
pub open spec fn overlay_run(records: Set<Record>, run: Seq<Record>) -> Set<Record> {
    Set::new(
        |record: Record|
            run.contains(record) || (records.contains(record) && forall|other: Record| #[trigger]
                run.contains(other) ==> other.key != record.key),
    )
}

/// The point records that operations write to one shard.
pub open spec fn written_records(
    operations: Seq<(BatchOperation, u32)>,
    sequence: Sequence,
    shard: int,
) -> Set<Record>
    decreases operations.len(),
{
    if operations.len() == 0 {
        Set::empty()
    } else {
        let before = written_records(operations.drop_last(), sequence, shard);
        let last = operations.last();
        match last.0@.record(sequence, last.1) {
            Some(record) => if shard_of(record.key.user_key) == shard {
                overlay(before, record)
            } else {
                before
            },
            None => before,
        }
    }
}

/// The range deletions that operations write, in order.
pub open spec fn written_tombstones(
    operations: Seq<(BatchOperation, u32)>,
    sequence: Sequence,
) -> Seq<Tombstone>
    decreases operations.len(),
{
    if operations.len() == 0 {
        Seq::empty()
    } else {
        let before = written_tombstones(operations.drop_last(), sequence);
        let last = operations.last();
        match last.0@.tombstone(sequence, last.1) {
            Some(tombstone) => before.push(tombstone),
            None => before,
        }
    }
}

/// Sum of the bytes that tombstones are charged with, at most the largest `u64`.
pub open spec fn tombstone_bytes(tombstones: Seq<Tombstone>) -> u64
    decreases tombstones.len(),
{
    if tombstones.len() == 0 {
        0
    } else {
        tombstone_bytes(tombstones.drop_last()).saturating_add(
            tombstones.last().charged_bytes() as u64,
        )
    }
}

/// Whether `delta` is what the operations write to one shard.
pub open spec fn is_written_delta(
    delta: InMemoryDelta,
    operations: Seq<(BatchOperation, u32)>,
    sequence: Sequence,
    shard: int,
) -> bool {
    &&& delta.wf()
    &&& delta.memtable@.to_set() == written_records(operations, sequence, shard)
    &&& delta.tombstones().to_multiset() == written_tombstones(
        operations,
        sequence,
    ).to_multiset()
    &&& delta.sequence == sequence
    &&& delta.estimated_bytes == delta.memtable.size().saturating_add(
        tombstone_bytes(written_tombstones(operations, sequence)),
    )
}

/// Collects what one commit writes to one shard.
#[derive(Debug)]
struct DeltaBuilder {
    memtable: Memtable,
    range_tombstones: Vec<RangeTombstone>,
    range_tombstone_bytes: u64,
}

impl DeltaBuilder {
    spec fn collects(
        &self,
        operations: Seq<(BatchOperation, u32)>,
        sequence: Sequence,
        shard: int,
    ) -> bool {
        &&& self.memtable.wf()
        &&& self.memtable@.to_set() == written_records(operations, sequence, shard)
        &&& range_tombstone::is_sorted(range_tombstone::tombstones_of(self.range_tombstones@))
        &&& range_tombstone::tombstones_of(self.range_tombstones@).to_multiset()
            == written_tombstones(operations, sequence).to_multiset()
        &&& self.range_tombstone_bytes == tombstone_bytes(
            written_tombstones(operations, sequence),
        )
    }

    fn new(Ghost(sequence): Ghost<Sequence>, Ghost(shard): Ghost<int>) -> (builder: DeltaBuilder)
        ensures
            builder.collects(Seq::empty(), sequence, shard),
    {
        let builder = DeltaBuilder {
            memtable: Memtable::new(),
            range_tombstones: Vec::new(),
            range_tombstone_bytes: 0,
        };
        proof {
            assert(builder.memtable@ =~= Seq::<Record>::empty());
            assert(builder.memtable@.to_set() =~= Set::<Record>::empty());
            assert(range_tombstone::tombstones_of(builder.range_tombstones@) =~= Seq::<
                Tombstone,
            >::empty());
        }
        builder
    }

    fn insert(&mut self, key: InternalKey, value: Option<ValueRef>)
        requires
            old(self).memtable.wf(),
        ensures
            final(self).memtable.wf(),
            final(self).memtable@.to_set() == overlay(
                old(self).memtable@.to_set(),
                (Record { key: key@, value: blob::value_view(value) }),
            ),
            final(self).range_tombstones == old(self).range_tombstones,
            final(self).range_tombstone_bytes == old(self).range_tombstone_bytes,
    {
        let ghost before = self.memtable@;
        let ghost added = Record { key: key@, value: blob::value_view(value) };
        self.memtable.insert(key, value);
        proof {
            assert forall|record: Record| #[trigger]
                self.memtable@.to_set().contains(record) <==> overlay(
                    before.to_set(),
                    added,
                ).contains(record) by {
                assert(self.memtable@.contains(record) <==> record == added || (before.contains(
                    record,
                ) && record.key != added.key));
            }
            assert(self.memtable@.to_set() =~= overlay(before.to_set(), added));
        }
    }

    fn put(&mut self, key: Vec<u8>, value: Vec<u8>, sequence: Sequence, batch_index: u32)
        requires
            old(self).memtable.wf(),
        ensures
            final(self).memtable.wf(),
            final(self).memtable@.to_set() == overlay(
                old(self).memtable@.to_set(),
                Operation::Put(key@, value@).record(sequence, batch_index)->0,
            ),
            final(self).range_tombstones == old(self).range_tombstones,
            final(self).range_tombstone_bytes == old(self).range_tombstone_bytes,
    {
        self.insert(
            InternalKey::new(key, sequence, ValueKind::Put, batch_index),
            Some(ValueRef::Inline(value)),
        );
    }

    fn delete(&mut self, key: Vec<u8>, sequence: Sequence, batch_index: u32)
        requires
            old(self).memtable.wf(),
        ensures
            final(self).memtable.wf(),
            final(self).memtable@.to_set() == overlay(
                old(self).memtable@.to_set(),
                Operation::Delete(key@).record(sequence, batch_index)->0,
            ),
            final(self).range_tombstones == old(self).range_tombstones,
            final(self).range_tombstone_bytes == old(self).range_tombstone_bytes,
    {
        self.insert(InternalKey::new(key, sequence, ValueKind::PointDelete, batch_index), None);
    }

    fn delete_range(&mut self, range: KeyRange, sequence: Sequence, batch_index: u32)
        requires
            range_tombstone::is_sorted(
                range_tombstone::tombstones_of(old(self).range_tombstones@),
            ),
        ensures
            final(self).memtable == old(self).memtable,
            range_tombstone::is_sorted(
                range_tombstone::tombstones_of(final(self).range_tombstones@),
            ),
            range_tombstone::tombstones_of(final(self).range_tombstones@).to_multiset()
                == range_tombstone::tombstones_of(
                old(self).range_tombstones@,
            ).to_multiset().insert((Tombstone { range: range@, sequence, batch_index })),
            final(self).range_tombstone_bytes == old(self).range_tombstone_bytes.saturating_add(
                (Tombstone { range: range@, sequence, batch_index }).charged_bytes() as u64,
            ),
    {
        let bytes: u64 = range_tombstone::range_tombstone_bytes(&range);
        assert(bytes == (Tombstone { range: range@, sequence, batch_index }).charged_bytes());
        self.range_tombstone_bytes = self.range_tombstone_bytes.saturating_add(bytes);
        range_tombstone::insert_sorted(
            &mut self.range_tombstones,
            RangeTombstone { range, sequence, batch_index },
        );
    }

    /// Returns the collected delta, or nothing if nothing was written to the shard.
    fn finish(
        self,
        sequence: Sequence,
        Ghost(operations): Ghost<Seq<(BatchOperation, u32)>>,
        Ghost(shard): Ghost<int>,
    ) -> (delta: Option<Arc<InMemoryDelta>>)
        requires
            self.collects(operations, sequence, shard),
        ensures
            match delta {
                Some(delta) => is_written_delta(*delta, operations, sequence, shard) && writes(
                    operations,
                    sequence,
                    shard,
                ),
                None => !writes(operations, sequence, shard),
            },
    {
        broadcast use vstd::seq_lib::group_to_multiset_ensures;

        let ghost memtable = self.memtable@;
        let ghost tombstones = range_tombstone::tombstones_of(self.range_tombstones@);
        proof {
            assert(memtable.len() == 0 <==> written_records(operations, sequence, shard)
                =~= Set::<Record>::empty()) by {
                if memtable.len() > 0 {
                    assert(memtable.contains(memtable[0]));
                    assert(memtable.to_set().contains(memtable[0]));
                } else {
                    assert(memtable.to_set() =~= Set::<Record>::empty());
                }
            }
            let written = written_tombstones(operations, sequence);
            assert(tombstones.to_multiset().len() == tombstones.len());
            assert(written.to_multiset().len() == written.len());
        }
        if self.memtable.is_empty() && self.range_tombstones.len() == 0 {
            return None;
        }
        let estimated_bytes: u64 = self.memtable.estimated_bytes().saturating_add(
            self.range_tombstone_bytes,
        );
        proof {
            assert forall|record: Record| #[trigger]
                memtable.contains(record) implies record.key.sequence == sequence by {
                assert(memtable.to_set().contains(record));
                written_at_sequence(operations, sequence, shard, record);
            }
        }
        Some(
            Arc::new(
                InMemoryDelta {
                    memtable: Arc::new(self.memtable),
                    range_tombstones: Arc::new(self.range_tombstones),
                    estimated_bytes,
                    sequence,
                },
            ),
        )
    }
}

pub(crate) proof fn written_at_sequence(
    operations: Seq<(BatchOperation, u32)>,
    sequence: Sequence,
    shard: int,
    record: Record,
)
    requires
        written_records(operations, sequence, shard).contains(record),
    ensures
        record.key.sequence == sequence,
        shard_of(record.key.user_key) == shard,
    decreases operations.len(),
{
    if operations.len() > 0 {
        let before = written_records(operations.drop_last(), sequence, shard);
        if before.contains(record) {
            written_at_sequence(operations.drop_last(), sequence, shard, record);
        }
    }
}

/// Whether operations write anything to a shard.
pub open spec fn writes(
    operations: Seq<(BatchOperation, u32)>,
    sequence: Sequence,
    shard: int,
) -> bool {
    ||| !(written_records(operations, sequence, shard) =~= Set::<Record>::empty())
    ||| written_tombstones(operations, sequence).len() > 0
}

/// The newest commit of a list of deltas.
pub open spec fn newest_sequence(deltas: Seq<Arc<InMemoryDelta>>) -> Sequence
    decreases deltas.len(),
{
    if deltas.len() == 0 {
        Sequence(0)
    } else {
        let before = newest_sequence(deltas.drop_last());
        let last = deltas.last().sequence;
        if last.0 > before.0 {
            last
        } else {
            before
        }
    }
}

/// The records of a list of deltas; a later delta replaces records of the same key.
pub open spec fn merged_records(deltas: Seq<Arc<InMemoryDelta>>) -> Set<Record>
    decreases deltas.len(),
{
    if deltas.len() == 0 {
        Set::empty()
    } else {
        overlay_run(merged_records(deltas.drop_last()), deltas.last().memtable@)
    }
}

/// The range deletions of a list of deltas, in order.
pub open spec fn merged_tombstones(deltas: Seq<Arc<InMemoryDelta>>) -> Seq<Tombstone>
    decreases deltas.len(),
{
    if deltas.len() == 0 {
        Seq::empty()
    } else {
        merged_tombstones(deltas.drop_last()) + deltas.last().tombstones()
    }
}

/// Whether `merged` stands for all of `deltas`.
pub open spec fn is_merge(deltas: Seq<Arc<InMemoryDelta>>, merged: InMemoryDelta) -> bool {
    &&& merged.wf()
    &&& merged.memtable@.to_set() == merged_records(deltas)
    &&& merged.tombstones().to_multiset() == merged_tombstones(deltas).to_multiset()
    &&& merged.sequence == newest_sequence(deltas)
    &&& merged.estimated_bytes == merged.memtable.size().saturating_add(
        tombstone_bytes(merged_tombstones(deltas)),
    )
}

/// Merges deltas into one.
pub fn merge_deltas(deltas: &Vec<Arc<InMemoryDelta>>) -> (merged: Arc<InMemoryDelta>)
    requires
        forall|i: int| 0 <= i < deltas@.len() ==> (#[trigger] deltas@[i]).wf(),
    ensures
        is_merge(deltas@, *merged),
{
    let mut memtable: Memtable = Memtable::new();
    let mut range_tombstones: Vec<RangeTombstone> = Vec::new();
    let mut total_bytes: u64 = 0;
    let mut sequence: Sequence = Sequence::zero();
    let mut i: usize = 0;
    proof {
        assert(deltas@.take(0) =~= Seq::<Arc<InMemoryDelta>>::empty());
        assert(memtable@ =~= Seq::<Record>::empty());
        assert(memtable@.to_set() =~= Set::<Record>::empty());
        assert(range_tombstone::tombstones_of(range_tombstones@) =~= Seq::<Tombstone>::empty());
    }
    while i < deltas.len()
        invariant
            forall|i: int| 0 <= i < deltas@.len() ==> (#[trigger] deltas@[i]).wf(),
            i <= deltas@.len(),
            memtable.wf(),
            memtable@.to_set() == merged_records(deltas@.take(i as int)),
            range_tombstone::tombstones_of(range_tombstones@) == merged_tombstones(
                deltas@.take(i as int),
            ),
            total_bytes == tombstone_bytes(merged_tombstones(deltas@.take(i as int))),
            sequence == newest_sequence(deltas@.take(i as int)),
            forall|record: Record| #[trigger]
                memtable@.contains(record) ==> record.key.sequence.0 <= sequence.0,
        decreases deltas@.len() - i,
    {
        let delta = &deltas[i];
        proof {
            assert(deltas@.take(i + 1).drop_last() =~= deltas@.take(i as int));
            assert(deltas@.take(i + 1).last() == deltas@[i as int]);
        }
        if delta.sequence.get() > sequence.get() {
            sequence = delta.sequence;
        }
        insert_run(&mut memtable, &delta.memtable);
        total_bytes = add_tombstone_bytes(
            total_bytes,
            &delta.range_tombstones,
            Ghost(merged_tombstones(deltas@.take(i as int))),
        );
        range_tombstone::extend_tombstones(&mut range_tombstones, &delta.range_tombstones);
        i += 1;
    }
    proof {
        assert(deltas@.take(i as int) =~= deltas@);
    }
    let sorted: Vec<RangeTombstone> = range_tombstone::sort_tombstones(range_tombstones);
    let estimated_bytes: u64 = memtable.estimated_bytes().saturating_add(total_bytes);
    Arc::new(
        InMemoryDelta {
            memtable: Arc::new(memtable),
            range_tombstones: Arc::new(sorted),
            estimated_bytes,
            sequence,
        },
    )
}

fn insert_run(memtable: &mut Memtable, run: &Memtable)
    requires
        old(memtable).wf(),
        run.wf(),
    ensures
        final(memtable).wf(),
        final(memtable)@.to_set() == overlay_run(old(memtable)@.to_set(), run@),
        forall|record: Record| #[trigger]
            final(memtable)@.contains(record) ==> old(memtable)@.contains(record) || run@.contains(
                record,
            ),
{
    let ghost before = memtable@.to_set();
    proof {
        run.wf_facts();
        assert(run@.take(0) =~= Seq::<Record>::empty());
        assert(overlay_run(before, run@.take(0)) =~= before);
    }
    let entries = run.read_entries();
    let mut k: usize = 0;
    while k < entries.len()
        invariant
            memtable.wf(),
            entries@ == run@,
            memtable::is_sorted(run@),
            k <= run@.len(),
            memtable@.to_set() == overlay_run(before, run@.take(k as int)),
        decreases run@.len() - k,
    {
        let entry: MemtableEntry = entries.get(k).clone();
        let ghost added = entry@;
        let ghost middle = memtable@;
        memtable.insert(entry.key, entry.value);
        proof {
            overlay_extends_run(before, run@, k as int);
            assert forall|record: Record| #[trigger]
                memtable@.to_set().contains(record) <==> overlay(
                    middle.to_set(),
                    added,
                ).contains(record) by {
                assert(memtable@.contains(record) <==> record == added || (middle.contains(record)
                    && record.key != added.key));
            }
            assert(memtable@.to_set() =~= overlay(middle.to_set(), added));
        }
        k += 1;
    }
    proof {
        assert(run@.take(k as int) =~= run@);
        assert forall|record: Record| #[trigger]
            memtable@.contains(record) implies old(memtable)@.contains(record) || run@.contains(
            record,
        ) by {
            assert(memtable@.to_set().contains(record));
            if before.contains(record) {
                assert(old(memtable)@.contains(record));
            }
        }
    }
}

proof fn overlay_extends_run(records: Set<Record>, run: Seq<Record>, k: int)
    requires
        memtable::is_sorted(run),
        0 <= k < run.len(),
    ensures
        overlay(overlay_run(records, run.take(k)), run[k]) == overlay_run(records, run.take(k + 1)),
{
    crate::internal_key::record_order_facts();
    let left = overlay(overlay_run(records, run.take(k)), run[k]);
    let right = overlay_run(records, run.take(k + 1));
    assert forall|r: Record| #[trigger] run.take(k + 1).contains(r) <==> run.take(k).contains(r) || r == run[k] by {
        let longer = run.take(k + 1);
        if longer.contains(r) {
            let i = choose|i: int| 0 <= i < longer.len() && longer[i] == r;
            if i < k {
                assert(run.take(k)[i] == r);
            }
        }
        if run.take(k).contains(r) {
            let shorter = run.take(k);
            let i = choose|i: int| 0 <= i < shorter.len() && shorter[i] == r;
            assert(longer[i] == r);
        }
        assert(run.take(k + 1)[k] == run[k]);
    }
    assert forall|r: Record| #[trigger] run.take(k).contains(r) implies r.key != run[k].key by {
        let shorter = run.take(k);
        let i = choose|i: int| 0 <= i < shorter.len() && shorter[i] == r;
        assert(run[i].key.lt(run[k].key));
    }
    assert forall|r: Record| #[trigger] left.contains(r) <==> right.contains(r) by {
        if right.contains(r) && !run.take(k + 1).contains(r) {
            assert(run.take(k + 1).contains(run[k]));
            assert forall|other: Record| #[trigger] run.take(k).contains(other) implies other.key != r.key by {
                assert(run.take(k + 1).contains(other));
            }
        }
    }
    assert(left =~= right);
}

fn add_tombstone_bytes(
    total: u64,
    list: &Vec<RangeTombstone>,
    Ghost(before): Ghost<Seq<Tombstone>>,
) -> (sum: u64)
    requires
        total == tombstone_bytes(before),
    ensures
        sum == tombstone_bytes(before + range_tombstone::tombstones_of(list@)),
{
    let ghost added = range_tombstone::tombstones_of(list@);
    let mut sum: u64 = total;
    let mut k: usize = 0;
    proof {
        assert(before + added.take(0) =~= before);
    }
    while k < list.len()
        invariant
            added == range_tombstone::tombstones_of(list@),
            k <= list@.len(),
            sum == tombstone_bytes(before + added.take(k as int)),
        decreases list@.len() - k,
    {
        let bytes: u64 = range_tombstone::range_tombstone_bytes(&list[k].range);
        proof {
            let longer = before + added.take(k + 1);
            assert(longer.drop_last() =~= before + added.take(k as int));
            assert(longer.last() == list@[k as int]@);
            let t = list@[k as int]@;
            assert(bytes == (Tombstone {
                range: t.range,
                sequence: t.sequence,
                batch_index: t.batch_index,
            }).charged_bytes());
        }
        sum = sum.saturating_add(bytes);
        k += 1;
    }
    proof {
        assert(added.take(k as int) =~= added);
    }
    sum
}

/// Whether no two deltas hold records of the same key.
pub open spec fn keys_apart(deltas: Seq<Arc<InMemoryDelta>>) -> bool {
    forall|i: int, j: int, a: Record, b: Record|
        #![trigger deltas[i].memtable@.contains(a), deltas[j].memtable@.contains(b)]
        0 <= i < j < deltas.len() && deltas[i].memtable@.contains(a)
            && deltas[j].memtable@.contains(b) ==> a.key != b.key
}

/// Merging loses no record: where no two deltas share a record key, the merged delta
/// holds exactly the records of the deltas.
pub proof fn merge_keeps_every_record(
    deltas: Seq<Arc<InMemoryDelta>>,
    merged: Arc<InMemoryDelta>,
    record: Record,
)
    requires
        is_merge(deltas, *merged),
        keys_apart(deltas),
    ensures
        merged.memtable@.contains(record) <==> exists|i: int|
            0 <= i < deltas.len() && (#[trigger] deltas[i]).memtable@.contains(record),
{
    merged_holds_every_record(deltas, record);
    assert(merged.memtable@.to_set().contains(record) <==> merged.memtable@.contains(record));
}

proof fn merged_holds_every_record(deltas: Seq<Arc<InMemoryDelta>>, record: Record)
    requires
        keys_apart(deltas),
    ensures
        merged_records(deltas).contains(record) <==> exists|i: int|
            0 <= i < deltas.len() && (#[trigger] deltas[i]).memtable@.contains(record),
    decreases deltas.len(),
{
    if deltas.len() > 0 {
        let shorter = deltas.drop_last();
        let last = deltas.len() - 1;
        assert(keys_apart(shorter)) by {
            assert forall|i: int, j: int, a: Record, b: Record|
                #![trigger shorter[i].memtable@.contains(a), shorter[j].memtable@.contains(b)]
                0 <= i < j < shorter.len() && shorter[i].memtable@.contains(a)
                    && shorter[j].memtable@.contains(b) implies a.key != b.key by {
                assert(deltas[i].memtable@.contains(a) && deltas[j].memtable@.contains(b));
            }
        }
        merged_holds_every_record(shorter, record);
        if exists|i: int| 0 <= i < deltas.len() && (#[trigger] deltas[i]).memtable@.contains(record) {
            let i = choose|i: int|
                0 <= i < deltas.len() && (#[trigger] deltas[i]).memtable@.contains(record);
            if i < last {
                assert(shorter[i].memtable@.contains(record));
                assert forall|other: Record| #[trigger]
                    deltas[last].memtable@.contains(other) implies other.key != record.key by {
                    assert(deltas[i].memtable@.contains(record));
                }
            } else {
                assert(deltas[last].memtable@.contains(record));
            }
        }
        if merged_records(deltas).contains(record) {
            if deltas[last].memtable@.contains(record) {
            } else {
                let i = choose|i: int|
                    0 <= i < shorter.len() && (#[trigger] shorter[i]).memtable@.contains(record);
                assert(deltas[i].memtable@.contains(record));
            }
        }
    }
}

/// Merging loses no range deletion.
pub proof fn merge_keeps_every_tombstone(
    deltas: Seq<Arc<InMemoryDelta>>,
    merged: Arc<InMemoryDelta>,
    tombstone: Tombstone,
)
    requires
        is_merge(deltas, *merged),
    ensures
        merged.tombstones().contains(tombstone) <==> exists|i: int|
            0 <= i < deltas.len() && (#[trigger] deltas[i]).tombstones().contains(tombstone),
{
    merged_holds_every_tombstone(deltas, tombstone);
    range_tombstone::same_multiset_same_members(merged.tombstones(), merged_tombstones(deltas));
}

proof fn merged_holds_every_tombstone(deltas: Seq<Arc<InMemoryDelta>>, tombstone: Tombstone)
    ensures
        merged_tombstones(deltas).contains(tombstone) <==> exists|i: int|
            0 <= i < deltas.len() && (#[trigger] deltas[i]).tombstones().contains(tombstone),
    decreases deltas.len(),
{
    if deltas.len() > 0 {
        let shorter = deltas.drop_last();
        let last = deltas.len() - 1;
        merged_holds_every_tombstone(shorter, tombstone);
        sources::joined_contains(
            merged_tombstones(shorter),
            deltas[last].tombstones(),
            tombstone,
        );
        if exists|i: int|
            0 <= i < deltas.len() && (#[trigger] deltas[i]).tombstones().contains(tombstone) {
            let i = choose|i: int|
                0 <= i < deltas.len() && (#[trigger] deltas[i]).tombstones().contains(tombstone);
            if i < last {
                assert(shorter[i].tombstones().contains(tombstone));
            } else {
                assert(deltas[last].tombstones().contains(tombstone));
            }
        }
        if merged_tombstones(shorter).contains(tombstone) {
            let i = choose|i: int|
                0 <= i < shorter.len() && (#[trigger] shorter[i]).tombstones().contains(tombstone);
            assert(deltas[i].tombstones().contains(tombstone));
        }
    }
}

/// The deltas of a shard that were not merged yet.
#[derive(Debug)]
pub struct DeltaEpoch {
    /// Deltas, oldest first.
    pub deltas: Vec<Arc<InMemoryDelta>>,
    /// Size estimate of the deltas.
    pub estimated_bytes: u64,
}

impl DeltaEpoch {
    fn push(&mut self, delta: Arc<InMemoryDelta>)
        ensures
            final(self).deltas@ == old(self).deltas@.push(delta),
            final(self).estimated_bytes == old(self).estimated_bytes.saturating_add(
                delta.estimated_bytes,
            ),
    {
        self.estimated_bytes = self.estimated_bytes.saturating_add(delta.estimated_bytes);
        self.deltas.push(delta);
    }
}

/// State of one delta shard.
#[derive(Debug)]
pub struct DeltaShardState {
    /// Deltas that take part in reads.
    pub open_epoch: DeltaEpoch,
    /// Number of epochs that were closed.
    pub sealed_epoch_count: u64,
    /// Number of epochs that were merged.
    pub merged_epoch_count: u64,
    /// Number of deltas that merges replaced.
    pub retired_delta_count: u64,
}

impl DeltaShardState {
    /// Whether the deltas are well formed and few.
    pub open spec fn wf(&self) -> bool {
        &&& forall|i: int|
            0 <= i < self.open_epoch.deltas@.len() ==> (
            #[trigger] self.open_epoch.deltas@[i]).wf()
        &&& self.open_epoch.deltas@.len() < 8
    }

    /// Whether a delta holds the record.
    pub open spec fn has_record(&self, record: Record) -> bool {
        exists|i: int|
            0 <= i < self.open_epoch.deltas@.len() && (
            #[trigger] self.open_epoch.deltas@[i]).memtable@.contains(record)
    }

    /// Whether a delta holds the range deletion.
    pub open spec fn has_tombstone(&self, tombstone: Tombstone) -> bool {
        exists|i: int|
            0 <= i < self.open_epoch.deltas@.len() && (
            #[trigger] self.open_epoch.deltas@[i]).tombstones().contains(tombstone)
    }

    /// Returns a shard without deltas.
    pub fn new() -> (state: DeltaShardState)
        ensures
            state.wf(),
            state.open_epoch.deltas@.len() == 0,
            state.open_epoch.estimated_bytes == 0,
            state.sealed_epoch_count == 0,
            state.merged_epoch_count == 0,
            state.retired_delta_count == 0,
    {
        DeltaShardState {
            open_epoch: DeltaEpoch { deltas: Vec::new(), estimated_bytes: 0 },
            sealed_epoch_count: 0,
            merged_epoch_count: 0,
            retired_delta_count: 0,
        }
    }

    /// Adds a delta and merges the open epoch when it grew over its budget.
    pub fn publish(&mut self, delta: Arc<InMemoryDelta>, max_epoch_bytes: u64)
        requires
            old(self).wf(),
            delta.wf(),
        ensures
            final(self).wf(),
            shard_published(*old(self), *final(self), delta, max_epoch_bytes),
    {
        self.open_epoch.push(delta);
        if self.open_epoch_exceeds_budget(max_epoch_bytes) {
            self.seal_and_merge_open_epoch();
        }
    }

    fn open_epoch_exceeds_budget(&self, max_epoch_bytes: u64) -> (exceeds: bool)
        ensures
            exceeds == (self.open_epoch.deltas@.len() >= 8 || self.open_epoch.estimated_bytes
                >= max_epoch_bytes),
    {
        self.open_epoch.deltas.len() >= DELTA_EPOCH_MAX_DELTAS || self.open_epoch.estimated_bytes
            >= max_epoch_bytes
    }

    fn seal_and_merge_open_epoch(&mut self)
        requires
            forall|i: int|
                0 <= i < old(self).open_epoch.deltas@.len() ==> (
                #[trigger] old(self).open_epoch.deltas@[i]).wf(),
        ensures
            old(self).open_epoch.deltas@.len() <= 1 ==> *final(self) == *old(self),
            old(self).open_epoch.deltas@.len() > 1 ==> shard_merged(*old(self), *final(self)),
    {
        if self.open_epoch.deltas.len() <= 1 {
            return ;
        }
        let merged: Arc<InMemoryDelta> = merge_deltas(&self.open_epoch.deltas);
        let retired: u64 = memtable::usize_to_u64_saturating(self.open_epoch.deltas.len());
        self.open_epoch = DeltaEpoch { deltas: Vec::new(), estimated_bytes: 0 };
        self.sealed_epoch_count = self.sealed_epoch_count.saturating_add(1);
        self.merged_epoch_count = self.merged_epoch_count.saturating_add(1);
        self.retired_delta_count = self.retired_delta_count.saturating_add(retired);
        self.open_epoch.push(merged);
    }
}

/// Whether `after` is `before` with its open epoch merged into one delta.
pub open spec fn shard_merged(before: DeltaShardState, after: DeltaShardState) -> bool {
    &&& after.open_epoch.deltas@.len() == 1
    &&& is_merge(before.open_epoch.deltas@, *after.open_epoch.deltas@[0])
    &&& after.open_epoch.estimated_bytes == after.open_epoch.deltas@[0].estimated_bytes
    &&& after.sealed_epoch_count == before.sealed_epoch_count.saturating_add(1)
    &&& after.merged_epoch_count == before.merged_epoch_count.saturating_add(1)
    &&& after.retired_delta_count == before.retired_delta_count.saturating_add(
        before.open_epoch.deltas@.len() as u64,
    )
}

/// Whether `after` is `before` with one more delta, merged where the epoch reached
/// its count or byte budget.
pub open spec fn shard_published(
    before: DeltaShardState,
    after: DeltaShardState,
    delta: Arc<InMemoryDelta>,
    max_epoch_bytes: u64,
) -> bool {
    let bytes = before.open_epoch.estimated_bytes.saturating_add(delta.estimated_bytes);
    let pushed = before.open_epoch.deltas@.push(delta);
    if pushed.len() > 1 && (pushed.len() >= 8 || bytes >= max_epoch_bytes) {
        &&& after.open_epoch.deltas@.len() == 1
        &&& is_merge(pushed, *after.open_epoch.deltas@[0])
        &&& after.open_epoch.estimated_bytes == after.open_epoch.deltas@[0].estimated_bytes
        &&& after.sealed_epoch_count == before.sealed_epoch_count.saturating_add(1)
        &&& after.merged_epoch_count == before.merged_epoch_count.saturating_add(1)
        &&& after.retired_delta_count == before.retired_delta_count.saturating_add(
            pushed.len() as u64,
        )
    } else {
        &&& after.open_epoch.deltas@ == pushed
        &&& after.open_epoch.estimated_bytes == bytes
        &&& after.sealed_epoch_count == before.sealed_epoch_count
        &&& after.merged_epoch_count == before.merged_epoch_count
        &&& after.retired_delta_count == before.retired_delta_count
    }
}

/// The deltas of the chosen shards, shard after shard.
pub open spec fn deltas_of(shards: Seq<DeltaShardState>, chosen: Set<int>) -> Seq<
    Arc<InMemoryDelta>,
>
    decreases shards.len(),
{
    if shards.len() == 0 {
        Seq::empty()
    } else if chosen.contains(shards.len() - 1) {
        deltas_of(shards.drop_last(), chosen) + shards.last().open_epoch.deltas@
    } else {
        deltas_of(shards.drop_last(), chosen)
    }
}

/// All shards.
pub open spec fn all_shards() -> Set<int> {
    Set::new(|s: int| 0 <= s < 16)
}

/// The shards that hold the records of some of `keys`.
pub open spec fn shards_of(keys: Seq<Vec<u8>>) -> Set<int> {
    Set::new(|s: int| exists|k: int| 0 <= k < keys.len() && shard_of((#[trigger] keys[k])@) == s)
}

spec fn marked(selected: Seq<bool>) -> Set<int> {
    Set::new(|s: int| 0 <= s < selected.len() && selected[s])
}

/// The delta shards of a tree.
#[derive(Debug)]
pub struct DeltaShardSet {
    /// Shards.
    pub shards: Vec<DeltaShardState>,
}

impl DeltaShardSet {
    /// Whether there is the fixed number of shards, each point record is in the shard
    /// of its key, and every shard holds every range deletion.
    pub open spec fn wf(&self) -> bool {
        &&& self.shards@.len() == 16
        &&& forall|i: int| 0 <= i < 16 ==> (#[trigger] self.shards@[i]).wf()
        &&& forall|i: int, record: Record|
            0 <= i < 16 && #[trigger] self.shards@[i].has_record(record) ==> shard_of(
                record.key.user_key,
            ) == i
        &&& forall|i: int, j: int, tombstone: Tombstone|
            #![trigger self.shards@[i].has_tombstone(tombstone), self.shards@[j]]
            0 <= i < 16 && 0 <= j < 16 && self.shards@[i].has_tombstone(tombstone)
                ==> self.shards@[j].has_tombstone(tombstone)
    }

    /// Returns shards without deltas.
    pub fn new() -> (set: DeltaShardSet)
        ensures
            set.wf(),
            forall|i: int|
                0 <= i < 16 ==> (#[trigger] set.shards@[i]).open_epoch.deltas@.len() == 0,
    {
        let mut shards: Vec<DeltaShardState> = Vec::with_capacity(DELTA_SHARD_COUNT);
        let mut i: usize = 0;
        while i < DELTA_SHARD_COUNT
            invariant
                i <= 16,
                shards@.len() == i,
                forall|j: int|
                    0 <= j < i ==> (#[trigger] shards@[j]).wf()
                        && shards@[j].open_epoch.deltas@.len() == 0,
            decreases 16 - i,
        {
            shards.push(DeltaShardState::new());
            i += 1;
        }
        DeltaShardSet { shards }
    }

    /// Returns the shard that holds the point records of `key`.
    pub fn shard_index_for_key(&self, key: &[u8]) -> (index: usize)
        requires
            self.wf(),
        ensures
            index == shard_of(key@),
            index < 16,
    {
        let hash: u64 = stable_key_hash(key);
        (hash % 16) as usize
    }

    /// Publishes one commit.
    pub fn publish_operations(&mut self, operations: Vec<(BatchOperation, u32)>, sequence: Sequence)
        requires
            old(self).wf(),
        ensures
            final(self).wf(),
            set_published(*old(self), *final(self), operations@, sequence, u64::MAX),
    {
        self.publish_operations_with_budget(operations, sequence, u64::MAX);
    }

    /// Publishes one commit; an epoch that reaches `max_epoch_bytes` is merged.
    #[verifier::rlimit(40)]
    #[verifier::spinoff_prover]
    pub fn publish_operations_with_budget(
        &mut self,
        operations: Vec<(BatchOperation, u32)>,
        sequence: Sequence,
        max_epoch_bytes: u64,
    )
        requires
            old(self).wf(),
        ensures
            final(self).wf(),
            set_published(*old(self), *final(self), operations@, sequence, max_epoch_bytes),
    {
        let ghost ops = operations@;
        let mut builders: Vec<DeltaBuilder> = collect_operations(operations, sequence);
        let ghost before = *self;
        let mut shard: usize = DELTA_SHARD_COUNT;
        while shard > 0
            invariant
                shard <= 16,
                before.shards@.len() == 16,
                forall|i: int| 0 <= i < 16 ==> (#[trigger] before.shards@[i]).wf(),
                self.shards@.len() == 16,
                builders@.len() == shard,
                forall|i: int|
                    0 <= i < shard ==> (#[trigger] builders@[i]).collects(ops, sequence, i),
                forall|i: int| 0 <= i < shard ==> self.shards@[i] == #[trigger] before.shards@[i],
                forall|i: int|
                    shard <= i < 16 ==> (#[trigger] self.shards@[i]).wf() && shard_step(
                        before.shards@[i],
                        self.shards@[i],
                        ops,
                        sequence,
                        i,
                        max_epoch_bytes,
                    ),
            decreases shard,
        {
            let ghost middle = *self;
            shard -= 1;
            let builder: DeltaBuilder = builders.pop().unwrap();
            assert(middle.shards@[shard as int] == before.shards@[shard as int]);
            publish_built(
                &mut self.shards[shard],
                builder,
                sequence,
                max_epoch_bytes,
                Ghost(ops),
                Ghost(shard as int),
            );
            proof {
                assert forall|i: int| shard < i < 16 implies (#[trigger] self.shards@[i]).wf()
                    && shard_step(
                    before.shards@[i],
                    self.shards@[i],
                    ops,
                    sequence,
                    i,
                    max_epoch_bytes,
                ) by {
                    assert(middle.shards@[i].wf());
                    assert(self.shards@[i] == middle.shards@[i]);
                }
                assert forall|i: int| 0 <= i < shard implies self.shards@[i]
                    == #[trigger] before.shards@[i] by {
                    assert(middle.shards@[i] == before.shards@[i]);
                }
            }
        }
        proof {
            assert forall|i: int, record: Record|
                0 <= i < 16 && #[trigger] self.shards@[i].has_record(record) implies shard_of(
                record.key.user_key,
            ) == i by {
                step_keeps_placement(
                    before.shards@[i],
                    self.shards@[i],
                    ops,
                    sequence,
                    i,
                    max_epoch_bytes,
                    record,
                );
            }
            assert forall|i: int, j: int, tombstone: Tombstone|
                #![trigger self.shards@[i].has_tombstone(tombstone), self.shards@[j]]
                0 <= i < 16 && 0 <= j < 16 && self.shards@[i].has_tombstone(
                    tombstone,
                ) implies self.shards@[j].has_tombstone(tombstone) by {
                step_adds_tombstones(
                    before.shards@[i],
                    self.shards@[i],
                    ops,
                    sequence,
                    i,
                    max_epoch_bytes,
                    tombstone,
                );
                step_adds_tombstones(
                    before.shards@[j],
                    self.shards@[j],
                    ops,
                    sequence,
                    j,
                    max_epoch_bytes,
                    tombstone,
                );
            }
        }
    }

    /// Returns the deltas of all shards.
    pub fn snapshot_all(&self) -> (snapshot: DeltaSnapshot)
        requires
            self.wf(),
        ensures
            snapshot.wf(),
            snapshot.deltas@ == deltas_of(self.shards@, all_shards()),
            forall|i: int|
                0 <= i < snapshot.deltas@.len() ==> self.has_delta(#[trigger] snapshot.deltas@[i]),
            forall|record: Record| #[trigger]
                snapshot.has_record(record) <==> self.has_record(record),
            forall|tombstone: Tombstone| #[trigger]
                snapshot.has_tombstone(tombstone) <==> self.has_tombstone(tombstone),
    {
        let mut selected: Vec<bool> = Vec::with_capacity(DELTA_SHARD_COUNT);
        let mut i: usize = 0;
        while i < DELTA_SHARD_COUNT
            invariant
                i <= 16,
                selected@.len() == i,
                forall|j: int| 0 <= j < i ==> selected@[j],
            decreases 16 - i,
        {
            selected.push(true);
            i += 1;
        }
        let snapshot: DeltaSnapshot = self.snapshot_selected(&selected);
        proof {
            self.all_shards_together(snapshot, selected@);
            assert(marked(selected@) =~= all_shards());
        }
        snapshot
    }

    /// Returns the deltas of the shard that holds the records of `key`.
    pub fn snapshot_for_key(&self, key: &[u8]) -> (snapshot: DeltaSnapshot)
        requires
            self.wf(),
        ensures
            snapshot.wf(),
            snapshot.deltas@ == self.shards@[shard_of(key@)].open_epoch.deltas@,
    {
        let index: usize = self.shard_index_for_key(key);
        assert(self.shards@[index as int].wf());
        DeltaSnapshot { deltas: sources::share_deltas(&self.shards[index].open_epoch.deltas) }
    }

    /// Returns the deltas of the shards that hold the records of some of `keys`.
    pub fn snapshot_for_keys(&self, keys: &Vec<Vec<u8>>) -> (snapshot: DeltaSnapshot)
        requires
            self.wf(),
        ensures
            snapshot.wf(),
            snapshot.deltas@ == deltas_of(self.shards@, shards_of(keys@)),
            forall|record: Record| #[trigger]
                snapshot.has_record(record) <==> self.has_record(record) && exists|k: int|
                    0 <= k < keys@.len() && shard_of((#[trigger] keys@[k])@) == shard_of(
                        record.key.user_key,
                    ),
            keys@.len() > 0 ==> forall|tombstone: Tombstone| #[trigger]
                snapshot.has_tombstone(tombstone) <==> self.has_tombstone(tombstone),
    {
        let mut selected: Vec<bool> = Vec::with_capacity(DELTA_SHARD_COUNT);
        let mut i: usize = 0;
        while i < DELTA_SHARD_COUNT
            invariant
                i <= 16,
                selected@.len() == i,
                forall|j: int| 0 <= j < i ==> !selected@[j],
            decreases 16 - i,
        {
            selected.push(false);
            i += 1;
        }
        let mut k: usize = 0;
        while k < keys.len()
            invariant
                self.wf(),
                k <= keys@.len(),
                selected@.len() == 16,
                forall|s: int|
                    0 <= s < 16 ==> (#[trigger] selected@[s] <==> exists|j: int|
                        0 <= j < k && shard_of((#[trigger] keys@[j])@) == s),
            decreases keys@.len() - k,
        {
            let index: usize = self.shard_index_for_key(keys[k].as_slice());
            let ghost old_selected = selected@;
            selected.set(index, true);
            proof {
                assert forall|s: int| 0 <= s < 16 implies (#[trigger] selected@[s] <==> exists|
                    j: int,
                |
                    0 <= j < k + 1 && shard_of((#[trigger] keys@[j])@) == s) by {
                    if s == index {
                        assert(shard_of(keys@[k as int]@) == s);
                    } else {
                        assert(selected@[s] == old_selected[s]);
                        if old_selected[s] {
                            let j = choose|j: int|
                                0 <= j < k && shard_of((#[trigger] keys@[j])@) == s;
                            assert(shard_of(keys@[j]@) == s);
                        }
                    }
                }
            }
            k += 1;
        }
        let snapshot: DeltaSnapshot = self.snapshot_selected(&selected);
        proof {
            assert(marked(selected@) =~= shards_of(keys@));
            assert forall|record: Record| #[trigger]
                snapshot.has_record(record) <==> self.has_record(record) && exists|k: int|
                    0 <= k < keys@.len() && shard_of((#[trigger] keys@[k])@) == shard_of(
                        record.key.user_key,
                    ) by {
                let s = shard_of(record.key.user_key);
                if snapshot.has_record(record) {
                    let i = choose|i: int|
                        0 <= i < 16 && selected@[i] && #[trigger] self.shards@[i].has_record(record);
                    assert(self.shards@[i].has_record(record));
                    assert(selected@[s]);
                }
                if self.has_record(record) && selected@[s] {
                    let i = choose|i: int|
                        0 <= i < 16 && #[trigger] self.shards@[i].has_record(record);
                    assert(i == s);
                }
            }
            if keys@.len() > 0 {
                let s = shard_of(keys@[0]@);
                assert(selected@[s]);
                assert forall|tombstone: Tombstone| #[trigger]
                    snapshot.has_tombstone(tombstone) <==> self.has_tombstone(tombstone) by {
                    if self.has_tombstone(tombstone) {
                        let i = choose|i: int|
                            0 <= i < 16 && #[trigger] self.shards@[i].has_tombstone(tombstone);
                        assert(self.shards@[s].has_tombstone(tombstone));
                    }
                }
            }
        }
        snapshot
    }

    fn snapshot_selected(&self, selected: &Vec<bool>) -> (snapshot: DeltaSnapshot)
        requires
            self.wf(),
            selected@.len() == 16,
        ensures
            snapshot.wf(),
            snapshot.deltas@ == deltas_of(self.shards@, marked(selected@)),
            forall|i: int|
                0 <= i < snapshot.deltas@.len() ==> self.has_delta(#[trigger] snapshot.deltas@[i]),
            forall|record: Record| #[trigger]
                snapshot.has_record(record) <==> exists|i: int|
                    0 <= i < 16 && selected@[i] && #[trigger] self.shards@[i].has_record(record),
            forall|tombstone: Tombstone| #[trigger]
                snapshot.has_tombstone(tombstone) <==> exists|i: int|
                    0 <= i < 16 && selected@[i] && #[trigger] self.shards@[i].has_tombstone(
                        tombstone,
                    ),
    {
        let mut snapshot: DeltaSnapshot = DeltaSnapshot::empty();
        let mut i: usize = 0;
        while i < DELTA_SHARD_COUNT
            invariant
                i <= 16,
                self.wf(),
                selected@.len() == 16,
                snapshot.wf(),
                snapshot.deltas@ == deltas_of(self.shards@.take(i as int), marked(selected@)),
                forall|j: int|
                    0 <= j < snapshot.deltas@.len() ==> self.has_delta(
                        #[trigger] snapshot.deltas@[j],
                    ),
                forall|record: Record| #[trigger]
                    snapshot.has_record(record) <==> exists|j: int|
                        0 <= j < i && selected@[j] && #[trigger] self.shards@[j].has_record(record),
                forall|tombstone: Tombstone| #[trigger]
                    snapshot.has_tombstone(tombstone) <==> exists|j: int|
                        0 <= j < i && selected@[j] && #[trigger] self.shards@[j].has_tombstone(
                            tombstone,
                        ),
            decreases 16 - i,
        {
            let ghost before = snapshot;
            proof {
                let upto = self.shards@.take(i + 1);
                assert(upto.drop_last() =~= self.shards@.take(i as int));
                assert(upto.last() == self.shards@[i as int]);
            }
            if selected[i] {
                let mut more: Vec<Arc<InMemoryDelta>> = sources::share_deltas(
                    &self.shards[i].open_epoch.deltas,
                );
                let ghost added = more@;
                snapshot.deltas.append(&mut more);
                proof {
                    let shard = self.shards@[i as int];
                    assert(shard.wf());
                    assert forall|j: int| 0 <= j < snapshot.deltas@.len() implies self.has_delta(
                        #[trigger] snapshot.deltas@[j],
                    ) by {
                        if j < before.deltas@.len() {
                            assert(snapshot.deltas@[j] == before.deltas@[j]);
                        } else {
                            let k = j - before.deltas@.len();
                            assert(shard.open_epoch.deltas@[k] == snapshot.deltas@[j]);
                            assert(shard.open_epoch.deltas@.contains(snapshot.deltas@[j]));
                        }
                    }
                    assert forall|record: Record| #[trigger]
                        snapshot.has_record(record) <==> before.has_record(record)
                            || shard.has_record(record) by {
                        appended_records(before, snapshot, shard, record);
                    }
                    assert forall|tombstone: Tombstone| #[trigger]
                        snapshot.has_tombstone(tombstone) <==> before.has_tombstone(tombstone)
                            || shard.has_tombstone(tombstone) by {
                        appended_tombstones(before, snapshot, shard, tombstone);
                    }
                }
            }
            proof {
                assert forall|record: Record| #[trigger]
                    snapshot.has_record(record) <==> exists|j: int|
                        0 <= j < i + 1 && selected@[j] && #[trigger] self.shards@[j].has_record(
                            record,
                        ) by {
                    if before.has_record(record) {
                        let j = choose|j: int|
                            0 <= j < i && selected@[j] && #[trigger] self.shards@[j].has_record(
                                record,
                            );
                        assert(self.shards@[j].has_record(record));
                    }
                }
                assert forall|tombstone: Tombstone| #[trigger]
                    snapshot.has_tombstone(tombstone) <==> exists|j: int|
                        0 <= j < i + 1 && selected@[j] && #[trigger] self.shards@[j].has_tombstone(
                            tombstone,
                        ) by {
                    if before.has_tombstone(tombstone) {
                        let j = choose|j: int|
                            0 <= j < i && selected@[j] && #[trigger] self.shards@[j].has_tombstone(
                                tombstone,
                            );
                        assert(self.shards@[j].has_tombstone(tombstone));
                    }
                }
            }
            i += 1;
        }
        proof {
            assert(self.shards@.take(16) =~= self.shards@);
        }
        snapshot
    }

    proof fn all_shards_together(&self, snapshot: DeltaSnapshot, selected: Seq<bool>)
        requires
            selected.len() == 16,
            forall|j: int| 0 <= j < 16 ==> selected[j],
            forall|record: Record| #[trigger]
                snapshot.has_record(record) <==> exists|i: int|
                    0 <= i < 16 && selected[i] && #[trigger] self.shards@[i].has_record(record),
            forall|tombstone: Tombstone| #[trigger]
                snapshot.has_tombstone(tombstone) <==> exists|i: int|
                    0 <= i < 16 && selected[i] && #[trigger] self.shards@[i].has_tombstone(
                        tombstone,
                    ),
        ensures
            forall|record: Record| #[trigger]
                snapshot.has_record(record) <==> self.has_record(record),
            forall|tombstone: Tombstone| #[trigger]
                snapshot.has_tombstone(tombstone) <==> self.has_tombstone(tombstone),
    {
        assert forall|record: Record| #[trigger]
            snapshot.has_record(record) <==> self.has_record(record) by {
            if self.has_record(record) {
                let i = choose|i: int|
                    0 <= i < 16 && #[trigger] self.shards@[i].has_record(record);
                assert(selected[i] && self.shards@[i].has_record(record));
            }
        }
        assert forall|tombstone: Tombstone| #[trigger]
            snapshot.has_tombstone(tombstone) <==> self.has_tombstone(tombstone) by {
            if self.has_tombstone(tombstone) {
                let i = choose|i: int|
                    0 <= i < 16 && #[trigger] self.shards@[i].has_tombstone(tombstone);
                assert(selected[i] && self.shards@[i].has_tombstone(tombstone));
            }
        }
    }

    /// Whether a shard holds the delta.
    pub open spec fn has_delta(&self, delta: Arc<InMemoryDelta>) -> bool {
        exists|i: int| 0 <= i < 16 && #[trigger] self.shards@[i].open_epoch.deltas@.contains(delta)
    }

    /// Whether every delta with point records has a size estimate other than zero.
    pub open spec fn charged(&self) -> bool {
        forall|delta: Arc<InMemoryDelta>| #[trigger]
            self.has_delta(delta) && delta.memtable@.len() > 0 ==> sources::is_scanned(*delta)
    }

    /// Whether a shard holds the record.
    pub open spec fn has_record(&self, record: Record) -> bool {
        exists|i: int| 0 <= i < 16 && #[trigger] self.shards@[i].has_record(record)
    }

    /// Whether a shard holds the range deletion.
    pub open spec fn has_tombstone(&self, tombstone: Tombstone) -> bool {
        exists|i: int| 0 <= i < 16 && #[trigger] self.shards@[i].has_tombstone(tombstone)
    }

    /// The size estimate of the first `count` shards together.
    pub open spec fn bytes_of(&self, count: int) -> u64
        decreases count,
    {
        if count <= 0 {
            0
        } else {
            self.bytes_of(count - 1).saturating_add(
                self.shards@[count - 1].open_epoch.estimated_bytes,
            )
        }
    }

    /// Returns the size estimate of all deltas.
    pub fn estimated_bytes(&self) -> (bytes: u64)
        ensures
            bytes == self.bytes_of(self.shards@.len() as int),
    {
        let mut bytes: u64 = 0;
        let mut i: usize = 0;
        while i < self.shards.len()
            invariant
                i <= self.shards@.len(),
                bytes == self.bytes_of(i as int),
            decreases self.shards@.len() - i,
        {
            bytes = bytes.saturating_add(self.shards[i].open_epoch.estimated_bytes);
            i += 1;
        }
        bytes
    }

    /// Returns counts of the deltas, for diagnosis.
    pub fn debug_stats(&self) -> (stats: DeltaDebugStats)
        ensures
            stats == stats_of(self.shards@),
    {
        let mut stats: DeltaDebugStats = DeltaDebugStats::zero();
        let mut i: usize = 0;
        proof {
            assert(self.shards@.take(0) =~= Seq::<DeltaShardState>::empty());
        }
        while i < self.shards.len()
            invariant
                i <= self.shards@.len(),
                stats == stats_of(self.shards@.take(i as int)),
            decreases self.shards@.len() - i,
        {
            proof {
                assert(self.shards@.take(i + 1).drop_last() =~= self.shards@.take(i as int));
                assert(self.shards@.take(i + 1).last() == self.shards@[i as int]);
            }
            stats = stats.with_shard(&self.shards[i]);
            i += 1;
        }
        proof {
            assert(self.shards@.take(i as int) =~= self.shards@);
        }
        stats
    }

    /// Returns the number of deltas, of deltas with point records, and of range
    /// deletions.
    pub fn debug_counts(&self) -> (counts: (usize, usize, usize))
        ensures
            counts.0 == stats_of(self.shards@).delta_count,
            counts.1 == stats_of(self.shards@).point_delta_count,
            counts.2 == stats_of(self.shards@).range_tombstone_count,
    {
        let stats: DeltaDebugStats = self.debug_stats();
        (stats.delta_count, stats.point_delta_count, stats.range_tombstone_count)
    }
}

/// A read of a key through the key's own shard sees the same records of the key, and
/// the same range deletions, as a read through all shards.
pub proof fn own_shard_is_complete(
    set: DeltaShardSet,
    key: Seq<u8>,
    record: Record,
    tombstone: Tombstone,
)
    requires
        set.wf(),
        record.key.user_key == key,
    ensures
        set.shards@[shard_of(key)].has_record(record) <==> set.has_record(record),
        set.shards@[shard_of(key)].has_tombstone(tombstone) <==> set.has_tombstone(tombstone),
{
    let own = shard_of(key);
    if set.has_record(record) {
        let i = choose|i: int| 0 <= i < 16 && #[trigger] set.shards@[i].has_record(record);
        assert(i == own);
    }
    if set.has_tombstone(tombstone) {
        let i = choose|i: int| 0 <= i < 16 && #[trigger] set.shards@[i].has_tombstone(tombstone);
        assert(set.shards@[own].has_tombstone(tombstone));
    }
}

proof fn appended_records(
    before: DeltaSnapshot,
    after: DeltaSnapshot,
    shard: DeltaShardState,
    record: Record,
)
    requires
        after.deltas@ == before.deltas@ + shard.open_epoch.deltas@,
    ensures
        after.has_record(record) <==> before.has_record(record) || shard.has_record(record),
{
    let split = before.deltas@.len();
    if after.has_record(record) {
        let i = choose|i: int|
            0 <= i < after.deltas@.len() && (#[trigger] after.deltas@[i]).memtable@.contains(
                record,
            );
        if i < split {
            assert(before.deltas@[i].memtable@.contains(record));
        } else {
            assert(shard.open_epoch.deltas@[i - split].memtable@.contains(record));
        }
    }
    if before.has_record(record) {
        let i = choose|i: int|
            0 <= i < split && (#[trigger] before.deltas@[i]).memtable@.contains(record);
        assert(after.deltas@[i].memtable@.contains(record));
    }
    if shard.has_record(record) {
        let i = choose|i: int|
            0 <= i < shard.open_epoch.deltas@.len() && (
            #[trigger] shard.open_epoch.deltas@[i]).memtable@.contains(record);
        assert(after.deltas@[i + split].memtable@.contains(record));
    }
}

proof fn appended_tombstones(
    before: DeltaSnapshot,
    after: DeltaSnapshot,
    shard: DeltaShardState,
    tombstone: Tombstone,
)
    requires
        after.deltas@ == before.deltas@ + shard.open_epoch.deltas@,
    ensures
        after.has_tombstone(tombstone) <==> before.has_tombstone(tombstone)
            || shard.has_tombstone(tombstone),
{
    let split = before.deltas@.len();
    if after.has_tombstone(tombstone) {
        let i = choose|i: int|
            0 <= i < after.deltas@.len() && (#[trigger] after.deltas@[i]).tombstones().contains(
                tombstone,
            );
        if i < split {
            assert(before.deltas@[i].tombstones().contains(tombstone));
        } else {
            assert(shard.open_epoch.deltas@[i - split].tombstones().contains(tombstone));
        }
    }
    if before.has_tombstone(tombstone) {
        let i = choose|i: int|
            0 <= i < split && (#[trigger] before.deltas@[i]).tombstones().contains(tombstone);
        assert(after.deltas@[i].tombstones().contains(tombstone));
    }
    if shard.has_tombstone(tombstone) {
        let i = choose|i: int|
            0 <= i < shard.open_epoch.deltas@.len() && (
            #[trigger] shard.open_epoch.deltas@[i]).tombstones().contains(tombstone);
        assert(after.deltas@[i + split].tombstones().contains(tombstone));
    }
}

/// What publishing operations does to one shard.
pub open spec fn shard_step(
    before: DeltaShardState,
    after: DeltaShardState,
    operations: Seq<(BatchOperation, u32)>,
    sequence: Sequence,
    shard: int,
    max_epoch_bytes: u64,
) -> bool {
    if writes(operations, sequence, shard) {
        exists|delta: Arc<InMemoryDelta>|
            is_written_delta(*delta, operations, sequence, shard) && #[trigger] shard_published(
                before,
                after,
                delta,
                max_epoch_bytes,
            )
    } else {
        after == before
    }
}

/// What publishing operations does to the shards.
pub open spec fn set_published(
    before: DeltaShardSet,
    after: DeltaShardSet,
    operations: Seq<(BatchOperation, u32)>,
    sequence: Sequence,
    max_epoch_bytes: u64,
) -> bool {
    forall|i: int|
        0 <= i < 16 ==> shard_step(
            before.shards@[i],
            #[trigger] after.shards@[i],
            operations,
            sequence,
            i,
            max_epoch_bytes,
        )
}

proof fn merged_comes_from_deltas(deltas: Seq<Arc<InMemoryDelta>>, record: Record)
    requires
        merged_records(deltas).contains(record),
    ensures
        exists|i: int| 0 <= i < deltas.len() && (#[trigger] deltas[i]).memtable@.contains(record),
    decreases deltas.len(),
{
    if deltas.len() > 0 {
        let shorter = deltas.drop_last();
        let last = deltas.len() - 1;
        if deltas[last].memtable@.contains(record) {
        } else {
            merged_comes_from_deltas(shorter, record);
            let i = choose|i: int|
                0 <= i < shorter.len() && (#[trigger] shorter[i]).memtable@.contains(record);
            assert(deltas[i].memtable@.contains(record));
        }
    }
}

proof fn merged_keeps_key(deltas: Seq<Arc<InMemoryDelta>>, at: int, record: Record) -> (kept: Record)
    requires
        0 <= at < deltas.len(),
        deltas[at].memtable@.contains(record),
    ensures
        merged_records(deltas).contains(kept),
        kept.key == record.key,
        at == deltas.len() - 1 ==> kept == record,
    decreases deltas.len(),
{
    let shorter = deltas.drop_last();
    let last = deltas.len() - 1;
    if at == last {
        record
    } else {
        assert(shorter[at].memtable@.contains(record));
        let earlier = merged_keeps_key(shorter, at, record);
        if exists|other: Record| #[trigger]
            deltas[last].memtable@.contains(other) && other.key == record.key {
            choose|other: Record| #[trigger]
                deltas[last].memtable@.contains(other) && other.key == record.key
        } else {
            earlier
        }
    }
}

/// Publishing makes every written record readable, adds no other record, and takes
/// an older record away only where a newer one of the same key replaces it.
pub proof fn published_records_are_readable(
    before: DeltaShardState,
    after: DeltaShardState,
    operations: Seq<(BatchOperation, u32)>,
    sequence: Sequence,
    shard: int,
    max_epoch_bytes: u64,
    record: Record,
)
    requires
        before.wf(),
        shard_step(before, after, operations, sequence, shard, max_epoch_bytes),
    ensures
        written_records(operations, sequence, shard).contains(record) ==> after.has_record(record),
        after.has_record(record) ==> before.has_record(record) || written_records(
            operations,
            sequence,
            shard,
        ).contains(record),
        before.has_record(record) ==> exists|kept: Record| #[trigger]
            after.has_record(kept) && kept.key == record.key,
{
    let written = written_records(operations, sequence, shard);
    if writes(operations, sequence, shard) {
        let delta = choose|delta: Arc<InMemoryDelta>|
            is_written_delta(*delta, operations, sequence, shard) && #[trigger] shard_published(
                before,
                after,
                delta,
                max_epoch_bytes,
            );
        let pushed = before.open_epoch.deltas@.push(delta);
        let last = pushed.len() - 1;
        assert(delta.memtable@.to_set().contains(record) <==> delta.memtable@.contains(record));
        if after.open_epoch.deltas@ == pushed {
            if written.contains(record) {
                assert(after.open_epoch.deltas@[last].memtable@.contains(record));
            }
            if after.has_record(record) {
                let i = choose|i: int|
                    0 <= i < pushed.len() && (
                    #[trigger] after.open_epoch.deltas@[i]).memtable@.contains(record);
                if i < last {
                    assert(before.open_epoch.deltas@[i].memtable@.contains(record));
                }
            }
            if before.has_record(record) {
                let i = choose|i: int|
                    0 <= i < last && (
                    #[trigger] before.open_epoch.deltas@[i]).memtable@.contains(record);
                assert(after.open_epoch.deltas@[i].memtable@.contains(record));
                assert(after.has_record(record));
            }
        } else {
            let merged = after.open_epoch.deltas@[0];
            assert forall|r: Record| after.has_record(r) <==> merged_records(pushed).contains(
                r,
            ) by {
                assert(merged.memtable@.to_set().contains(r) <==> merged.memtable@.contains(r));
                if after.has_record(r) {
                    let i = choose|i: int|
                        0 <= i < 1 && (
                        #[trigger] after.open_epoch.deltas@[i]).memtable@.contains(r);
                }
                if merged_records(pushed).contains(r) {
                    assert(after.open_epoch.deltas@[0].memtable@.contains(r));
                }
            }
            if written.contains(record) {
                let kept = merged_keeps_key(pushed, last, record);
            }
            if after.has_record(record) {
                merged_comes_from_deltas(pushed, record);
                let i = choose|i: int|
                    0 <= i < pushed.len() && (#[trigger] pushed[i]).memtable@.contains(record);
                if i < last {
                    assert(before.open_epoch.deltas@[i].memtable@.contains(record));
                }
            }
            if before.has_record(record) {
                let i = choose|i: int|
                    0 <= i < last && (
                    #[trigger] before.open_epoch.deltas@[i]).memtable@.contains(record);
                assert(pushed[i].memtable@.contains(record));
                let kept = merged_keeps_key(pushed, i, record);
                assert(after.has_record(kept));
            }
        }
    } else {
        if before.has_record(record) {
            assert(after.has_record(record));
        }
    }
}

/// Whether the deltas of a shard hold each record key once, all of commits before `sequence`.
pub open spec fn holds_earlier(shard: DeltaShardState, sequence: Sequence) -> bool {
    &&& keys_apart(shard.open_epoch.deltas@)
    &&& forall|record: Record| #[trigger]
        shard.has_record(record) ==> record.key.sequence.0 < sequence.0
}

pub(crate) proof fn later_delta_is_apart(
    before: DeltaShardState,
    delta: Arc<InMemoryDelta>,
    operations: Seq<(BatchOperation, u32)>,
    sequence: Sequence,
    shard: int,
)
    requires
        holds_earlier(before, sequence),
        is_written_delta(*delta, operations, sequence, shard),
    ensures
        keys_apart(before.open_epoch.deltas@.push(delta)),
        forall|record: Record| #[trigger]
            delta.memtable@.contains(record) <==> written_records(
                operations,
                sequence,
                shard,
            ).contains(record),
        forall|record: Record| #[trigger]
            delta.memtable@.contains(record) ==> record.key.sequence == sequence,
{
    let older = before.open_epoch.deltas@;
    let pushed = older.push(delta);
    let written = written_records(operations, sequence, shard);
    assert forall|record: Record| #[trigger]
        delta.memtable@.contains(record) <==> written.contains(record) by {
        assert(delta.memtable@.to_set().contains(record) <==> delta.memtable@.contains(record));
    }
    assert forall|record: Record| #[trigger] delta.memtable@.contains(record) implies
        record.key.sequence == sequence by {
        written_at_sequence(operations, sequence, shard, record);
    }
    assert forall|i: int, j: int, a: Record, b: Record|
        #![trigger pushed[i].memtable@.contains(a), pushed[j].memtable@.contains(b)]
        0 <= i < j < pushed.len() && pushed[i].memtable@.contains(a)
            && pushed[j].memtable@.contains(b) implies a.key != b.key by {
        assert(older[i].memtable@.contains(a));
        assert(before.has_record(a));
        if j < older.len() {
            assert(older[j].memtable@.contains(b));
        }
    }
}

/// Publishing a later commit loses no record and keeps the deltas apart.
pub proof fn later_publish_keeps_records(
    before: DeltaShardState,
    after: DeltaShardState,
    operations: Seq<(BatchOperation, u32)>,
    sequence: Sequence,
    shard: int,
    max_epoch_bytes: u64,
    record: Record,
)
    requires
        before.wf(),
        holds_earlier(before, sequence),
        shard_step(before, after, operations, sequence, shard, max_epoch_bytes),
    ensures
        after.has_record(record) <==> before.has_record(record) || written_records(
            operations,
            sequence,
            shard,
        ).contains(record),
        keys_apart(after.open_epoch.deltas@),
{
    published_records_are_readable(
        before,
        after,
        operations,
        sequence,
        shard,
        max_epoch_bytes,
        record,
    );
    if writes(operations, sequence, shard) {
        let delta = choose|delta: Arc<InMemoryDelta>|
            is_written_delta(*delta, operations, sequence, shard) && #[trigger] shard_published(
                before,
                after,
                delta,
                max_epoch_bytes,
            );
        let pushed = before.open_epoch.deltas@.push(delta);
        later_delta_is_apart(before, delta, operations, sequence, shard);
        if before.has_record(record) {
            let i = choose|i: int|
                0 <= i < before.open_epoch.deltas@.len() && (
                #[trigger] before.open_epoch.deltas@[i]).memtable@.contains(record);
            assert(pushed[i].memtable@.contains(record));
            if after.open_epoch.deltas@ == pushed {
                assert(after.open_epoch.deltas@[i].memtable@.contains(record));
            } else {
                merge_keeps_every_record(pushed, after.open_epoch.deltas@[0], record);
                assert(after.open_epoch.deltas@[0].memtable@.contains(record));
            }
        }
    }
}

/// Whether no operation behind `at` takes the place of the one there.
pub open spec fn stands(
    operations: Seq<(BatchOperation, u32)>,
    sequence: Sequence,
    at: int,
) -> bool {
    forall|i: int|
        at < i < operations.len() ==> match (
            (#[trigger] operations[i]).0@.record(sequence, operations[i].1),
            operations[at].0@.record(sequence, operations[at].1),
        ) {
            (Some(later), Some(record)) => later.key != record.key,
            _ => true,
        }
}

/// Every record that operations write is that of one of them.
pub proof fn written_comes_from_operation(
    operations: Seq<(BatchOperation, u32)>,
    sequence: Sequence,
    shard: int,
    record: Record,
) -> (at: int)
    requires
        written_records(operations, sequence, shard).contains(record),
    ensures
        0 <= at < operations.len(),
        operations[at].0@.record(sequence, operations[at].1) == Some(record),
    decreases operations.len(),
{
    let last = operations.len() - 1;
    if operations[last].0@.record(sequence, operations[last].1) == Some(record) {
        last
    } else {
        written_comes_from_operation(operations.drop_last(), sequence, shard, record)
    }
}

/// An operation that stands writes its record to the shard of its key.
pub proof fn standing_operation_is_written(
    operations: Seq<(BatchOperation, u32)>,
    sequence: Sequence,
    at: int,
    record: Record,
)
    requires
        0 <= at < operations.len(),
        operations[at].0@.record(sequence, operations[at].1) == Some(record),
        stands(operations, sequence, at),
    ensures
        written_records(operations, sequence, shard_of(record.key.user_key)).contains(record),
    decreases operations.len(),
{
    let last = operations.len() - 1;
    if at < last {
        let shorter = operations.drop_last();
        assert forall|i: int| at < i < shorter.len() implies match (
            (#[trigger] shorter[i]).0@.record(sequence, shorter[i].1),
            shorter[at].0@.record(sequence, shorter[at].1),
        ) {
            (Some(later), Some(record)) => later.key != record.key,
            _ => true,
        } by {
            assert(operations[i] == shorter[i]);
        }
        standing_operation_is_written(shorter, sequence, at, record);
        assert(operations[last] == operations.last());
    }
}

/// A range deletion among operations is written, and each that is written is one of them.
pub proof fn written_tombstones_are_operations(
    operations: Seq<(BatchOperation, u32)>,
    sequence: Sequence,
    tombstone: Tombstone,
)
    ensures
        written_tombstones(operations, sequence).contains(tombstone) <==> exists|at: int|
            0 <= at < operations.len() && (#[trigger] operations[at]).0@.tombstone(
                sequence,
                operations[at].1,
            ) == Some(tombstone),
    decreases operations.len(),
{
    if operations.len() > 0 {
        let shorter = operations.drop_last();
        let last = operations.len() - 1;
        let before = written_tombstones(shorter, sequence);
        let all = written_tombstones(operations, sequence);
        written_tombstones_are_operations(shorter, sequence, tombstone);
        if before.contains(tombstone) {
            let i = choose|i: int| 0 <= i < before.len() && before[i] == tombstone;
            assert(all[i] == tombstone);
            let at = choose|at: int|
                0 <= at < shorter.len() && (#[trigger] shorter[at]).0@.tombstone(
                    sequence,
                    shorter[at].1,
                ) == Some(tombstone);
            assert(operations[at] == shorter[at]);
        }
        if operations[last].0@.tombstone(sequence, operations[last].1) == Some(tombstone) {
            assert(all[before.len() as int] == tombstone);
        }
        if exists|at: int|
            0 <= at < operations.len() && (#[trigger] operations[at]).0@.tombstone(
                sequence,
                operations[at].1,
            ) == Some(tombstone) {
            let at = choose|at: int|
                0 <= at < operations.len() && (#[trigger] operations[at]).0@.tombstone(
                    sequence,
                    operations[at].1,
                ) == Some(tombstone);
            if at < last {
                assert(shorter[at] == operations[at]);
                assert(before.contains(tombstone));
            }
        }
    }
}

proof fn step_keeps_placement(
    before: DeltaShardState,
    after: DeltaShardState,
    operations: Seq<(BatchOperation, u32)>,
    sequence: Sequence,
    shard: int,
    max_epoch_bytes: u64,
    record: Record,
)
    requires
        before.wf(),
        shard_step(before, after, operations, sequence, shard, max_epoch_bytes),
        forall|r: Record| #[trigger] before.has_record(r) ==> shard_of(r.key.user_key) == shard,
        after.has_record(record),
    ensures
        shard_of(record.key.user_key) == shard,
{
    published_records_are_readable(
        before,
        after,
        operations,
        sequence,
        shard,
        max_epoch_bytes,
        record,
    );
    if !before.has_record(record) {
        written_at_sequence(operations, sequence, shard, record);
    }
}

/// Publishing adds the written range deletions and takes none away.
pub proof fn step_adds_tombstones(
    before: DeltaShardState,
    after: DeltaShardState,
    operations: Seq<(BatchOperation, u32)>,
    sequence: Sequence,
    shard: int,
    max_epoch_bytes: u64,
    tombstone: Tombstone,
)
    requires
        before.wf(),
        shard_step(before, after, operations, sequence, shard, max_epoch_bytes),
    ensures
        after.has_tombstone(tombstone) <==> before.has_tombstone(tombstone) || written_tombstones(
            operations,
            sequence,
        ).contains(tombstone),
{
    let written = written_tombstones(operations, sequence);
    if writes(operations, sequence, shard) {
        let delta = choose|delta: Arc<InMemoryDelta>|
            is_written_delta(*delta, operations, sequence, shard) && #[trigger] shard_published(
                before,
                after,
                delta,
                max_epoch_bytes,
            );
        let pushed = before.open_epoch.deltas@.push(delta);
        let last = pushed.len() - 1;
        range_tombstone::same_multiset_same_members(delta.tombstones(), written);
        assert((exists|i: int|
            0 <= i < pushed.len() && (#[trigger] pushed[i]).tombstones().contains(tombstone))
            <==> before.has_tombstone(tombstone) || written.contains(tombstone)) by {
            if exists|i: int|
                0 <= i < pushed.len() && (#[trigger] pushed[i]).tombstones().contains(tombstone) {
                let i = choose|i: int|
                    0 <= i < pushed.len() && (#[trigger] pushed[i]).tombstones().contains(
                        tombstone,
                    );
                if i < last {
                    assert(before.open_epoch.deltas@[i].tombstones().contains(tombstone));
                }
            }
            if before.has_tombstone(tombstone) {
                let i = choose|i: int|
                    0 <= i < last && (
                    #[trigger] before.open_epoch.deltas@[i]).tombstones().contains(tombstone);
                assert(pushed[i].tombstones().contains(tombstone));
            }
            if written.contains(tombstone) {
                assert(pushed[last].tombstones().contains(tombstone));
            }
        }
        if after.open_epoch.deltas@ == pushed {
        } else {
            let merged = after.open_epoch.deltas@[0];
            merge_keeps_every_tombstone(pushed, merged, tombstone);
            if after.has_tombstone(tombstone) {
                let i = choose|i: int|
                    0 <= i < 1 && (#[trigger] after.open_epoch.deltas@[i]).tombstones().contains(
                        tombstone,
                    );
            }
            if merged.tombstones().contains(tombstone) {
                assert(after.open_epoch.deltas@[0].tombstones().contains(tombstone));
            }
        }
    }
}

fn publish_built(
    state: &mut DeltaShardState,
    builder: DeltaBuilder,
    sequence: Sequence,
    max_epoch_bytes: u64,
    Ghost(operations): Ghost<Seq<(BatchOperation, u32)>>,
    Ghost(shard): Ghost<int>,
)
    requires
        old(state).wf(),
        builder.collects(operations, sequence, shard),
    ensures
        final(state).wf(),
        shard_step(*old(state), *final(state), operations, sequence, shard, max_epoch_bytes),
{
    let delta: Option<Arc<InMemoryDelta>> = builder.finish(
        sequence,
        Ghost(operations),
        Ghost(shard),
    );
    if let Some(delta) = delta {
        state.publish(delta, max_epoch_bytes);
        assert(is_written_delta(*delta, operations, sequence, shard) && shard_published(
            *old(state),
            *state,
            delta,
            max_epoch_bytes,
        ));
    }
}

/// Hands each operation to the builders of the shards it touches.
fn collect_operations(operations: Vec<(BatchOperation, u32)>, sequence: Sequence) -> (builders: Vec<
    DeltaBuilder,
>)
    ensures
        builders@.len() == 16,
        forall|i: int|
            0 <= i < 16 ==> (#[trigger] builders@[i]).collects(operations@, sequence, i),
{
    let ghost all = operations@;
    let mut builders: Vec<DeltaBuilder> = Vec::with_capacity(DELTA_SHARD_COUNT);
    let mut shard: usize = 0;
    while shard < DELTA_SHARD_COUNT
        invariant
            shard <= 16,
            builders@.len() == shard,
            forall|i: int|
                0 <= i < shard ==> (#[trigger] builders@[i]).collects(Seq::empty(), sequence, i),
        decreases 16 - shard,
    {
        builders.push(DeltaBuilder::new(Ghost(sequence), Ghost(shard as int)));
        shard += 1;
    }
    let mut k: usize = 0;
    proof {
        assert(all.take(0) =~= Seq::<(BatchOperation, u32)>::empty());
    }
    while k < operations.len()
        invariant
            all == operations@,
            k <= all.len(),
            builders@.len() == 16,
            forall|i: int|
                0 <= i < 16 ==> (#[trigger] builders@[i]).collects(
                    all.take(k as int),
                    sequence,
                    i,
                ),
        decreases all.len() - k,
    {
        let ghost before = builders@;
        let ghost shorter = all.take(k as int);
        let ghost longer = all.take(k + 1);
        proof {
            assert(longer.drop_last() =~= shorter);
            assert(longer.last() == all[k as int]);
        }
        let batch_index: u32 = operations[k].1;
        match &operations[k].0 {
            BatchOperation::Put { key, value, .. } => {
                let index: usize = (stable_key_hash(key.as_slice()) % 16) as usize;
                builders[index].put(
                    slice_to_vec(key.as_slice()),
                    slice_to_vec(value.as_slice()),
                    sequence,
                    batch_index,
                );
            },
            BatchOperation::Delete { key, .. } => {
                let index: usize = (stable_key_hash(key.as_slice()) % 16) as usize;
                builders[index].delete(slice_to_vec(key.as_slice()), sequence, batch_index);
            },
            BatchOperation::DeleteRange { range, .. } => {
                delete_range_everywhere(
                    &mut builders,
                    range,
                    sequence,
                    batch_index,
                    Ghost(shorter),
                    Ghost(longer),
                );
            },
        }
        k += 1;
    }
    proof {
        assert(all.take(k as int) =~= all);
    }
    builders
}

fn delete_range_everywhere(
    builders: &mut Vec<DeltaBuilder>,
    range: &KeyRange,
    sequence: Sequence,
    batch_index: u32,
    Ghost(shorter): Ghost<Seq<(BatchOperation, u32)>>,
    Ghost(longer): Ghost<Seq<(BatchOperation, u32)>>,
)
    requires
        old(builders)@.len() == 16,
        forall|i: int|
            0 <= i < 16 ==> (#[trigger] old(builders)@[i]).collects(shorter, sequence, i),
        longer.len() > 0,
        longer.drop_last() == shorter,
        longer.last().0@ == Operation::DeleteRange(range@),
        longer.last().1 == batch_index,
    ensures
        final(builders)@.len() == 16,
        forall|i: int|
            0 <= i < 16 ==> (#[trigger] final(builders)@[i]).collects(longer, sequence, i),
{
    broadcast use vstd::seq_lib::group_to_multiset_ensures;

    let mut shard: usize = 0;
    while shard < DELTA_SHARD_COUNT
        invariant
            shard <= 16,
            builders@.len() == 16,
            longer.len() > 0,
            longer.drop_last() == shorter,
            longer.last().0@ == Operation::DeleteRange(range@),
            longer.last().1 == batch_index,
            forall|i: int|
                0 <= i < shard ==> (#[trigger] builders@[i]).collects(longer, sequence, i),
            forall|i: int|
                shard <= i < 16 ==> (#[trigger] builders@[i]).collects(shorter, sequence, i),
        decreases 16 - shard,
    {
        broadcast use vstd::seq_lib::group_to_multiset_ensures;

        let ghost before = builders@;
        assert(builders@[shard as int].collects(shorter, sequence, shard as int));
        builders[shard].delete_range(range.clone(), sequence, batch_index);
        proof {
            let written = written_tombstones(shorter, sequence);
            let added = Tombstone { range: range@, sequence, batch_index };
            assert(written_tombstones(longer, sequence) == written.push(added));
            assert(written.push(added).drop_last() =~= written);
            assert(builders@[shard as int].collects(longer, sequence, shard as int));
        }
        shard += 1;
    }
}

/// Counts of the deltas of a tree.
#[derive(Debug, Clone, Copy, PartialEq, Eq, Structural)]
pub struct DeltaDebugStats {
    /// Deltas in open epochs.
    pub delta_count: usize,
    /// Deltas with point records.
    pub point_delta_count: usize,
    /// Range deletions.
    pub range_tombstone_count: usize,
    /// Deltas in the longest open epoch.
    pub max_shard_chain_len: usize,
    /// Size estimate of the open epochs.
    pub open_epoch_bytes: u64,
    /// Epochs that were closed.
    pub sealed_epoch_count: u64,
    /// Epochs that were merged.
    pub merged_epoch_count: u64,
    /// Deltas that merges replaced.
    pub retired_delta_count: u64,
}

/// The number of deltas with point records, added to `start`.
pub open spec fn point_deltas(deltas: Seq<Arc<InMemoryDelta>>, start: usize) -> usize
    decreases deltas.len(),
{
    if deltas.len() == 0 {
        start
    } else {
        let before = point_deltas(deltas.drop_last(), start);
        if deltas.last().memtable.size() != 0 {
            before.saturating_add(1)
        } else {
            before
        }
    }
}

/// The number of range deletions, added to `start`.
pub open spec fn tombstone_count(deltas: Seq<Arc<InMemoryDelta>>, start: usize) -> usize
    decreases deltas.len(),
{
    if deltas.len() == 0 {
        start
    } else {
        tombstone_count(deltas.drop_last(), start).saturating_add(
            deltas.last().range_tombstones@.len() as usize,
        )
    }
}

/// The counts over a list of shards.
pub open spec fn stats_of(shards: Seq<DeltaShardState>) -> DeltaDebugStats
    decreases shards.len(),
{
    if shards.len() == 0 {
        DeltaDebugStats {
            delta_count: 0,
            point_delta_count: 0,
            range_tombstone_count: 0,
            max_shard_chain_len: 0,
            open_epoch_bytes: 0,
            sealed_epoch_count: 0,
            merged_epoch_count: 0,
            retired_delta_count: 0,
        }
    } else {
        stats_of(shards.drop_last()).adding(shards.last())
    }
}

impl DeltaDebugStats {
    /// These counts with those of one more shard.
    pub open spec fn adding(self, shard: DeltaShardState) -> DeltaDebugStats {
        let deltas = shard.open_epoch.deltas@;
        let len = deltas.len() as usize;
        DeltaDebugStats {
            delta_count: self.delta_count.saturating_add(len),
            point_delta_count: point_deltas(deltas, self.point_delta_count),
            range_tombstone_count: tombstone_count(deltas, self.range_tombstone_count),
            max_shard_chain_len: if len > self.max_shard_chain_len {
                len
            } else {
                self.max_shard_chain_len
            },
            open_epoch_bytes: self.open_epoch_bytes.saturating_add(
                shard.open_epoch.estimated_bytes,
            ),
            sealed_epoch_count: self.sealed_epoch_count.saturating_add(shard.sealed_epoch_count),
            merged_epoch_count: self.merged_epoch_count.saturating_add(shard.merged_epoch_count),
            retired_delta_count: self.retired_delta_count.saturating_add(
                shard.retired_delta_count,
            ),
        }
    }

    fn zero() -> (stats: DeltaDebugStats)
        ensures
            stats == stats_of(Seq::empty()),
    {
        DeltaDebugStats {
            delta_count: 0,
            point_delta_count: 0,
            range_tombstone_count: 0,
            max_shard_chain_len: 0,
            open_epoch_bytes: 0,
            sealed_epoch_count: 0,
            merged_epoch_count: 0,
            retired_delta_count: 0,
        }
    }

    fn with_shard(self, shard: &DeltaShardState) -> (stats: DeltaDebugStats)
        ensures
            stats == self.adding(*shard),
    {
        let deltas: &Vec<Arc<InMemoryDelta>> = &shard.open_epoch.deltas;
        let mut points: usize = self.point_delta_count;
        let mut tombstones: usize = self.range_tombstone_count;
        let mut i: usize = 0;
        proof {
            assert(deltas@.take(0) =~= Seq::<Arc<InMemoryDelta>>::empty());
        }
        while i < deltas.len()
            invariant
                i <= deltas@.len(),
                points == point_deltas(deltas@.take(i as int), self.point_delta_count),
                tombstones == tombstone_count(deltas@.take(i as int), self.range_tombstone_count),
            decreases deltas@.len() - i,
        {
            proof {
                assert(deltas@.take(i + 1).drop_last() =~= deltas@.take(i as int));
                assert(deltas@.take(i + 1).last() == deltas@[i as int]);
            }
            if deltas[i].memtable.estimated_bytes() != 0 {
                points = points.saturating_add(1);
            }
            tombstones = tombstones.saturating_add(deltas[i].range_tombstones.len());
            i += 1;
        }
        proof {
            assert(deltas@.take(i as int) =~= deltas@);
        }
        let len: usize = deltas.len();
        DeltaDebugStats {
            delta_count: self.delta_count.saturating_add(len),
            point_delta_count: points,
            range_tombstone_count: tombstones,
            max_shard_chain_len: if len > self.max_shard_chain_len {
                len
            } else {
                self.max_shard_chain_len
            },
            open_epoch_bytes: self.open_epoch_bytes.saturating_add(
                shard.open_epoch.estimated_bytes,
            ),
            sealed_epoch_count: self.sealed_epoch_count.saturating_add(shard.sealed_epoch_count),
            merged_epoch_count: self.merged_epoch_count.saturating_add(shard.merged_epoch_count),
            retired_delta_count: self.retired_delta_count.saturating_add(
                shard.retired_delta_count,
            ),
        }
    }
}

/// A merged delta is as new as the newest of its parts.
pub proof fn merged_delta_is_as_new_as_its_newest(
    deltas: Seq<Arc<InMemoryDelta>>,
    merged: Arc<InMemoryDelta>,
    i: int,
)
    requires
        is_merge(deltas, *merged),
        0 <= i < deltas.len(),
    ensures
        deltas[i].sequence.0 <= merged.sequence.0,
        exists|k: int| 0 <= k < deltas.len() && (#[trigger] deltas[k]).sequence == merged.sequence,
{
    newest_is_largest(deltas, i);
}

proof fn newest_is_largest(deltas: Seq<Arc<InMemoryDelta>>, i: int)
    requires
        0 <= i < deltas.len(),
    ensures
        deltas[i].sequence.0 <= newest_sequence(deltas).0,
        exists|k: int|
            0 <= k < deltas.len() && (#[trigger] deltas[k]).sequence == newest_sequence(deltas),
    decreases deltas.len(),
{
    let shorter = deltas.drop_last();
    let end = deltas.len() - 1;
    assert(deltas[end] == deltas.last());
    if end > 0 {
        let at = if i < end {
            i
        } else {
            0
        };
        newest_is_largest(shorter, at);
        let k = choose|k: int|
            0 <= k < shorter.len() && (#[trigger] shorter[k]).sequence == newest_sequence(shorter);
        assert(deltas[k] == shorter[k]);
        if i < end {
            assert(deltas[i] == shorter[i]);
        }
    } else {
        assert(newest_sequence(shorter) == Sequence(0));
        if deltas.last().sequence.0 == 0 {
            assert(deltas[end].sequence == Sequence(0));
        }
    }
}

/// The sum of the charges of range deletions.
pub open spec fn sum_of_charges(tombstones: Seq<Tombstone>) -> int {
    tombstones.fold_left(0int, |sum: int, tombstone: Tombstone| sum + tombstone.charged_bytes())
}

/// The bytes of range deletions are the sum of their charges, as far as that can be counted.
pub proof fn charges_of_deletions_add_up(tombstones: Seq<Tombstone>)
    ensures
        sum_of_charges(tombstones) >= 0,
        tombstone_bytes(tombstones) == if sum_of_charges(tombstones) <= u64::MAX {
            sum_of_charges(tombstones)
        } else {
            u64::MAX as int
        },
    decreases tombstones.len(),
{
    if tombstones.len() > 0 {
        charges_of_deletions_add_up(tombstones.drop_last());
    }
}

/// Publishing keeps an open epoch short and inside its budget: it then has fewer than eight deltas,
/// and more than one only if their bytes stay below the budget. Deltas go only by being merged, and
/// each that goes is counted as retired.
pub proof fn open_epochs_stay_in_their_budget(
    before: DeltaShardState,
    after: DeltaShardState,
    delta: Arc<InMemoryDelta>,
    max_epoch_bytes: u64,
)
    requires
        before.wf(),
        shard_published(before, after, delta, max_epoch_bytes),
    ensures
        0 < after.open_epoch.deltas@.len() < 8,
        after.open_epoch.deltas@.len() > 1 ==> after.open_epoch.estimated_bytes < max_epoch_bytes,
        after.open_epoch.deltas@.len() == before.open_epoch.deltas@.len() + 1 ==> {
            &&& after.open_epoch.deltas@.last() == delta
            &&& after.open_epoch.deltas@.drop_last() == before.open_epoch.deltas@
            &&& after.sealed_epoch_count == before.sealed_epoch_count
            &&& after.merged_epoch_count == before.merged_epoch_count
            &&& after.retired_delta_count == before.retired_delta_count
        },
        after.open_epoch.deltas@.len() != before.open_epoch.deltas@.len() + 1 ==> {
            &&& after.open_epoch.deltas@.len() == 1
            &&& before.sealed_epoch_count < u64::MAX ==> after.sealed_epoch_count
                == before.sealed_epoch_count + 1
            &&& before.merged_epoch_count < u64::MAX ==> after.merged_epoch_count
                == before.merged_epoch_count + 1
            &&& before.retired_delta_count + before.open_epoch.deltas@.len() + 1 <= u64::MAX
                ==> after.retired_delta_count == before.retired_delta_count
                + before.open_epoch.deltas@.len() + 1
        },
        before.open_epoch.deltas@.len() > 0 && before.open_epoch.estimated_bytes
            + delta.estimated_bytes < max_epoch_bytes && before.open_epoch.deltas@.len() < 7
            ==> after.open_epoch.deltas@.len() == before.open_epoch.deltas@.len() + 1,
{
}

/// The bytes of all shards are the sum of those of each, as far as that can be counted.
pub proof fn bytes_of_shards_add_up(set: DeltaShardSet, count: int)
    requires
        0 <= count < set.shards@.len(),
    ensures
        set.bytes_of(0) == 0,
        set.bytes_of(count + 1) == if set.bytes_of(count)
            + set.shards@[count].open_epoch.estimated_bytes <= u64::MAX {
            set.bytes_of(count) + set.shards@[count].open_epoch.estimated_bytes
        } else {
            u64::MAX as int
        },
{
}

/// The counts over shards count every delta and every range deletion of each, as far as that can be
/// counted, and know the longest list of deltas.
pub proof fn every_delta_is_counted(shards: Seq<DeltaShardState>, i: int)
    requires
        0 <= i < shards.len(),
        stats_of(shards).delta_count < usize::MAX,
    ensures
        stats_of(shards).delta_count == deltas_of(shards, Set::full()).len(),
        shards[i].open_epoch.deltas@.len() <= usize::MAX ==> stats_of(shards).max_shard_chain_len
            >= shards[i].open_epoch.deltas@.len(),
        stats_of(shards).open_epoch_bytes >= shards[i].open_epoch.estimated_bytes,
        stats_of(shards).retired_delta_count >= shards[i].retired_delta_count,
        stats_of(shards).sealed_epoch_count >= shards[i].sealed_epoch_count,
        stats_of(shards).merged_epoch_count >= shards[i].merged_epoch_count,
    decreases shards.len(),
{
    let shorter = shards.drop_last();
    let every = Set::<int>::full();
    let last = shards.last();
    assert(last.open_epoch.deltas@.len() == last.open_epoch.deltas.len());
    if shorter.len() > 0 {
        let at = if i < shorter.len() {
            i
        } else {
            0
        };
        every_delta_is_counted(shorter, at);
    } else {
        assert(deltas_of(shorter, every) =~= Seq::<Arc<InMemoryDelta>>::empty());
    }
    assert(every.contains(shards.len() - 1));
    assert(last.open_epoch.deltas@.len() <= usize::MAX);
    assert(stats_of(shorter).delta_count == deltas_of(shorter, every).len());
    assert(stats_of(shards) == stats_of(shorter).adding(last));
    assert(stats_of(shards).delta_count == stats_of(shorter).delta_count
        + last.open_epoch.deltas@.len());
    assert(deltas_of(shards, every) == deltas_of(shorter, every)
        + shards.last().open_epoch.deltas@);
}

/// The hash of a key is built up byte by byte from a fixed start: each byte is mixed in and the
/// result multiplied. Every key has one of the shards, and no part of it is left out of the hash.
pub proof fn keys_are_hashed_byte_by_byte(key: Seq<u8>, byte: u8, other: u8)
    ensures
        key_hash(Seq::empty()) == 14695981039346656037u64,
        key_hash(key.push(byte)) == (key_hash(key) ^ (byte as u64)).wrapping_mul(
            1099511628211u64,
        ),
        0 <= shard_of(key) < 16,
        byte != other ==> (key_hash(key) ^ (byte as u64)) != (key_hash(key) ^ (other as u64)),
{
    assert(key.push(byte).drop_last() =~= key);
    assert(key.push(byte).last() == byte);
    let hash = key_hash(key);
    let a = byte as u64;
    let b = other as u64;
    assert(a != b ==> hash ^ a != hash ^ b) by (bit_vector);
}

} // verus!
