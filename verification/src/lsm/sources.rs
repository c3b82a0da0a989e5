//! In-memory sources of a tree that one read works on.
use std::sync::Arc;
use vstd::prelude::*;

use crate::memtable::{Memtable, Record};
use crate::range_tombstone;
use crate::range_tombstone::{RangeTombstone, RangeTombstoneIndex, Tombstone};
use crate::types::Sequence;

verus! {

/// Records and range deletions that one or more commits wrote to one shard.
#[derive(Debug)]
pub struct InMemoryDelta {
    /// Point records.
    pub memtable: Arc<Memtable>,
    /// Range deletions.
    pub range_tombstones: Arc<Vec<RangeTombstone>>,
    /// Size estimate.
    pub estimated_bytes: u64,
    /// Newest commit.
    pub sequence: Sequence,
}

impl InMemoryDelta {
    /// Whether the records are sorted and none is newer than the delta, and the
    /// range deletions are sorted.
    pub open spec fn wf(&self) -> bool {
        &&& self.memtable.wf()
        &&& forall|record: Record| #[trigger]
            self.memtable@.contains(record) ==> record.key.sequence.0 <= self.sequence.0
        &&& range_tombstone::is_sorted(self.tombstones())
    }

    /// The range deletions.
    pub open spec fn tombstones(&self) -> Seq<Tombstone> {
        range_tombstone::tombstones_of(self.range_tombstones@)
    }
}

/// Whether a scan reads the point records of a delta.
pub open spec fn is_scanned(delta: InMemoryDelta) -> bool {
    delta.estimated_bytes != 0 && delta.memtable.size() != 0
}

/// A memtable that takes no more writes.
#[derive(Debug)]
pub struct ImmutableMemtable {
    /// Identity of the memtable inside its tree.
    pub id: u64,
    /// Point records.
    pub memtable: Arc<Memtable>,
    /// Range deletions.
    pub range_tombstones: Arc<Vec<RangeTombstone>>,
    /// Size estimate.
    pub estimated_bytes: u64,
    /// Commit after which the memtable stopped taking writes.
    pub freeze_sequence: Sequence,
}

impl ImmutableMemtable {
    /// Whether the records are sorted.
    pub open spec fn wf(&self) -> bool {
        self.memtable.wf()
    }

    /// The range deletions.
    pub open spec fn tombstones(&self) -> Seq<Tombstone> {
        range_tombstone::tombstones_of(self.range_tombstones@)
    }

    /// Makes another handle on the same memtable.
    pub fn share(&self) -> (other: ImmutableMemtable)
        ensures
            other == *self,
    {
        ImmutableMemtable {
            id: self.id,
            memtable: Arc::clone(&self.memtable),
            range_tombstones: Arc::clone(&self.range_tombstones),
            estimated_bytes: self.estimated_bytes,
            freeze_sequence: self.freeze_sequence,
        }
    }
}

/// Makes another handle on each memtable of a list.
pub fn share_immutables(list: &Vec<ImmutableMemtable>) -> (copy: Vec<ImmutableMemtable>)
    ensures
        copy@ == list@,
{
    let mut copy: Vec<ImmutableMemtable> = Vec::with_capacity(list.len());
    let mut i: usize = 0;
    while i < list.len()
        invariant
            i <= list.len(),
            copy.len() == i,
            forall|j: int| 0 <= j < i ==> copy@[j] == list@[j],
        decreases list.len() - i,
    {
        copy.push(list[i].share());
        i += 1;
    }
    proof {
        assert(copy@ =~= list@);
    }
    copy
}

/// Makes another handle on each delta of a list.
pub fn share_deltas(list: &Vec<Arc<InMemoryDelta>>) -> (copy: Vec<Arc<InMemoryDelta>>)
    ensures
        copy@ == list@,
{
    let mut copy: Vec<Arc<InMemoryDelta>> = Vec::with_capacity(list.len());
    let mut i: usize = 0;
    while i < list.len()
        invariant
            i <= list.len(),
            copy.len() == i,
            forall|j: int| 0 <= j < i ==> copy@[j] == list@[j],
        decreases list.len() - i,
    {
        copy.push(Arc::clone(&list[i]));
        i += 1;
    }
    proof {
        assert(copy@ =~= list@);
    }
    copy
}

/// The deltas that one read works on.
#[derive(Debug)]
pub struct DeltaSnapshot {
    /// Deltas, in the order in which they are read.
    pub deltas: Vec<Arc<InMemoryDelta>>,
}

impl DeltaSnapshot {
    /// Whether every delta is well formed.
    pub open spec fn wf(&self) -> bool {
        forall|i: int| 0 <= i < self.deltas@.len() ==> (#[trigger] self.deltas@[i]).wf()
    }

    /// Whether a delta holds the record.
    pub open spec fn has_record(&self, record: Record) -> bool {
        exists|i: int|
            0 <= i < self.deltas@.len() && (#[trigger] self.deltas@[i]).memtable@.contains(record)
    }

    /// Whether a delta holds the range deletion.
    pub open spec fn has_tombstone(&self, tombstone: Tombstone) -> bool {
        exists|i: int|
            0 <= i < self.deltas@.len() && (#[trigger] self.deltas@[i]).tombstones().contains(
                tombstone,
            )
    }

    /// Returns a snapshot without deltas.
    pub fn empty() -> (snapshot: DeltaSnapshot)
        ensures
            snapshot.wf(),
            snapshot.deltas@.len() == 0,
    {
        DeltaSnapshot { deltas: Vec::new() }
    }

    /// Returns the deltas.
    pub fn deltas(&self) -> (deltas: &Vec<Arc<InMemoryDelta>>)
        ensures
            *deltas == self.deltas,
    {
        &self.deltas
    }
}

/// The in-memory sources of a tree at one point in time.
#[derive(Debug)]
pub struct MemorySources {
    /// Deltas.
    pub delta_snapshot: DeltaSnapshot,
    /// Memtable that takes writes.
    pub active_memtable: Arc<Memtable>,
    /// Range deletions beside the active memtable.
    pub active_range_tombstones: Vec<RangeTombstone>,
    /// Memtables that wait to be flushed.
    pub immutable_memtables: Vec<ImmutableMemtable>,
}

impl MemorySources {
    /// Whether every source is well formed.
    pub open spec fn wf(&self) -> bool {
        &&& self.delta_snapshot.wf()
        &&& self.active_memtable.wf()
        &&& forall|i: int|
            0 <= i < self.immutable_memtables@.len() ==> (
            #[trigger] self.immutable_memtables@[i]).wf()
    }

    /// Whether a queued memtable holds the record.
    pub open spec fn queued_record(&self, record: Record) -> bool {
        exists|i: int|
            0 <= i < self.immutable_memtables@.len() && (
            #[trigger] self.immutable_memtables@[i]).memtable@.contains(record)
    }

    /// Whether a queued memtable holds the range deletion.
    pub open spec fn queued_tombstone(&self, tombstone: Tombstone) -> bool {
        exists|i: int|
            0 <= i < self.immutable_memtables@.len() && (
            #[trigger] self.immutable_memtables@[i]).tombstones().contains(tombstone)
    }

    /// Whether an in-memory source holds the record.
    pub open spec fn has_record(&self, record: Record) -> bool {
        ||| self.active_memtable@.contains(record)
        ||| self.queued_record(record)
        ||| self.delta_snapshot.has_record(record)
    }

    /// Whether an in-memory source holds the range deletion.
    pub open spec fn has_tombstone(&self, tombstone: Tombstone) -> bool {
        ||| self.delta_snapshot.has_tombstone(tombstone)
        ||| range_tombstone::tombstones_of(self.active_range_tombstones@).contains(tombstone)
        ||| self.queued_tombstone(tombstone)
    }

    /// Collects the range deletions of all in-memory sources.
    pub fn memtable_range_tombstones(&self) -> (index: RangeTombstoneIndex)
        ensures
            index.wf(),
            forall|tombstone: Tombstone| #[trigger]
                index@.contains(tombstone) <==> self.has_tombstone(tombstone),
    {
        let mut list: Vec<RangeTombstone> = Vec::new();
        let mut i: usize = 0;
        while i < self.delta_snapshot.deltas.len()
            invariant
                i <= self.delta_snapshot.deltas@.len(),
                forall|t: Tombstone| #[trigger]
                    range_tombstone::tombstones_of(list@).contains(t) <==> exists|j: int|
                        0 <= j < i && (
                        #[trigger] self.delta_snapshot.deltas@[j]).tombstones().contains(t),
            decreases self.delta_snapshot.deltas@.len() - i,
        {
            let ghost before = range_tombstone::tombstones_of(list@);
            let more: &Vec<RangeTombstone> = &*self.delta_snapshot.deltas[i].range_tombstones;
            range_tombstone::extend_tombstones(&mut list, more);
            proof {
                let added = self.delta_snapshot.deltas@[i as int].tombstones();
                assert forall|t: Tombstone| #[trigger]
                    range_tombstone::tombstones_of(list@).contains(t) <==> exists|j: int|
                        0 <= j < i + 1 && (
                        #[trigger] self.delta_snapshot.deltas@[j]).tombstones().contains(t) by {
                    joined_contains(before, added, t);
                    if before.contains(t) {
                        let j = choose|j: int|
                            0 <= j < i && (
                            #[trigger] self.delta_snapshot.deltas@[j]).tombstones().contains(t);
                        assert(self.delta_snapshot.deltas@[j].tombstones().contains(t));
                    }
                }
            }
            i += 1;
        }
        let ghost from_deltas = range_tombstone::tombstones_of(list@);
        range_tombstone::extend_tombstones(&mut list, &self.active_range_tombstones);
        let ghost with_active = range_tombstone::tombstones_of(list@);
        proof {
            assert forall|t: Tombstone| #[trigger]
                with_active.contains(t) <==> self.delta_snapshot.has_tombstone(t)
                    || range_tombstone::tombstones_of(self.active_range_tombstones@).contains(
                    t,
                ) by {
                joined_contains(
                    from_deltas,
                    range_tombstone::tombstones_of(self.active_range_tombstones@),
                    t,
                );
            }
        }
        let mut k: usize = 0;
        while k < self.immutable_memtables.len()
            invariant
                k <= self.immutable_memtables@.len(),
                forall|t: Tombstone| #[trigger]
                    range_tombstone::tombstones_of(list@).contains(t) <==> with_active.contains(t)
                        || exists|j: int|
                        0 <= j < k && (
                        #[trigger] self.immutable_memtables@[j]).tombstones().contains(t),
            decreases self.immutable_memtables@.len() - k,
        {
            let ghost before = range_tombstone::tombstones_of(list@);
            let more: &Vec<RangeTombstone> = &*self.immutable_memtables[k].range_tombstones;
            range_tombstone::extend_tombstones(&mut list, more);
            proof {
                let added = self.immutable_memtables@[k as int].tombstones();
                assert forall|t: Tombstone| #[trigger]
                    range_tombstone::tombstones_of(list@).contains(t) <==> with_active.contains(t)
                        || exists|j: int|
                        0 <= j < k + 1 && (
                        #[trigger] self.immutable_memtables@[j]).tombstones().contains(t) by {
                    joined_contains(before, added, t);
                    if before.contains(t) && !with_active.contains(t) {
                        let j = choose|j: int|
                            0 <= j < k && (
                            #[trigger] self.immutable_memtables@[j]).tombstones().contains(t);
                        assert(self.immutable_memtables@[j].tombstones().contains(t));
                    }
                }
            }
            k += 1;
        }
        let ghost all = range_tombstone::tombstones_of(list@);
        let index = RangeTombstoneIndex::new(list);
        proof {
            range_tombstone::same_multiset_same_members(index@, all);
        }
        index
    }
}

/// A joined list holds what its parts hold.
pub proof fn joined_contains(a: Seq<Tombstone>, b: Seq<Tombstone>, t: Tombstone)
    ensures
        (a + b).contains(t) <==> a.contains(t) || b.contains(t),
{
    if (a + b).contains(t) {
        let i = choose|i: int| 0 <= i < (a + b).len() && (a + b)[i] == t;
        if i < a.len() {
            assert(a[i] == t);
        } else {
            assert(b[i - a.len()] == t);
        }
    }
    if a.contains(t) {
        let i = choose|i: int| 0 <= i < a.len() && a[i] == t;
        assert((a + b)[i] == t);
    }
    if b.contains(t) {
        let i = choose|i: int| 0 <= i < b.len() && b[i] == t;
        assert((a + b)[i + a.len()] == t);
    }
}

} // verus!
