//! Turning queued memtables into tables.
use std::sync::Arc;
use vstd::prelude::*;

use crate::codec::CodecId;
use crate::error::{Error, ErrorKind, Result};
use crate::lsm::sources::ImmutableMemtable;
use crate::lsm::tree;
use crate::lsm::tree::LsmTree;
use crate::lsm::version;
use crate::lsm::version::LsmVersion;
use crate::memtable;
use crate::memtable::{Memtable, MemtableEntry, Record, RecordRun};
use crate::options::{BucketOptions, BucketSettings, FilterDepthCurve, FilterPolicy, PrefixFilterPolicy};
use crate::prefix::PrefixExtractor;
use crate::range_tombstone;
use crate::range_tombstone::{RangeTombstone, Tombstone};
use crate::table::{Table, TableLevel};
use crate::types::Sequence;
use crate::write_batch::Operation;

verus! {

/// How the blocks and filters of a new table are written.
#[derive(Debug)]
pub struct TableWriteOptions {
    /// Codec of the blocks.
    pub codec: CodecId,
    /// Target size of a block.
    pub block_bytes: usize,
    /// Point-read filter.
    pub filter_policy: FilterPolicy,
    /// Prefix rule of the prefix filter.
    pub prefix_extractor: PrefixExtractor,
    /// Prefix-read filter.
    pub prefix_filter_policy: PrefixFilterPolicy,
    /// Filter bits by level.
    pub filter_depth_curve: FilterDepthCurve,
    /// Size from which values go to blob files.
    pub blob_threshold_bytes: usize,
    /// Whether values in blob files are written anew.
    pub rewrite_blob_indexes: bool,
}

/// Whether write options are those that a flush derives from bucket options.
pub open spec fn derived_from(options: TableWriteOptions, bucket: BucketSettings) -> bool {
    &&& options.codec == bucket.compression.spec_codec_id()
    &&& options.block_bytes == bucket.block_bytes
    &&& options.filter_policy == bucket.filter_policy
    &&& options.prefix_extractor@ == bucket.prefix_extractor
    &&& options.prefix_filter_policy == bucket.prefix_filter_policy
    &&& options.filter_depth_curve == bucket.filter_depth_curve
    &&& options.blob_threshold_bytes == bucket.blob_threshold_bytes
    &&& !options.rewrite_blob_indexes
}

/// Derives the options of a flushed table.
pub fn table_write_options(options: &BucketOptions) -> (derived: TableWriteOptions)
    ensures
        derived_from(derived, options@),
{
    TableWriteOptions {
        codec: options.compression.codec_id(),
        block_bytes: options.block_bytes,
        filter_policy: options.filter_policy,
        prefix_extractor: options.prefix_extractor.clone(),
        prefix_filter_policy: options.prefix_filter_policy,
        filter_depth_curve: options.filter_depth_curve,
        blob_threshold_bytes: options.blob_threshold_bytes,
        rewrite_blob_indexes: false,
    }
}

/// What one flushed table is written from.
#[derive(Debug)]
pub struct FlushInput {
    /// Identity of the queued memtable.
    pub memtable_id: u64,
    /// The queued memtable.
    pub memtable: Arc<Memtable>,
    /// Commit after which the memtable stopped taking writes.
    pub freeze_sequence: Sequence,
    /// Level of the new table.
    pub table_level: TableLevel,
    /// How the new table is written.
    pub table_options: TableWriteOptions,
    /// Point records, in key order.
    pub point_records: Vec<MemtableEntry>,
    /// Range deletions.
    pub range_tombstones: Vec<RangeTombstone>,
}

/// Whether a queued memtable holds anything to write.
pub open spec fn holds_anything(immutable: ImmutableMemtable) -> bool {
    immutable.memtable@.len() > 0 || immutable.tombstones().len() > 0
}

/// Whether a flush input is what a queued memtable gives.
pub open spec fn is_input_of(
    input: FlushInput,
    immutable: ImmutableMemtable,
    options: BucketSettings,
) -> bool {
    &&& input.memtable_id == immutable.id
    &&& input.memtable == immutable.memtable
    &&& input.freeze_sequence == immutable.freeze_sequence
    &&& input.table_level.0 == 0
    &&& derived_from(input.table_options, options)
    &&& memtable::records_of(input.point_records@) == immutable.memtable@
    &&& range_tombstone::tombstones_of(input.range_tombstones@) == immutable.tombstones()
}

/// Whether flush inputs are those of the queued memtables that hold anything, in order.
pub open spec fn are_inputs_of(
    inputs: Seq<FlushInput>,
    queue: Seq<ImmutableMemtable>,
    options: BucketSettings,
) -> bool {
    let kept = queue.filter(|immutable: ImmutableMemtable| holds_anything(immutable));
    &&& inputs.len() == kept.len()
    &&& forall|i: int|
        0 <= i < inputs.len() ==> is_input_of(#[trigger] inputs[i], kept[i], options)
}

/// Whether `sequence` belongs to a point record or a range deletion of the two lists.
pub open spec fn mentions(
    records: Seq<Record>,
    tombstones: Seq<Tombstone>,
    sequence: Sequence,
) -> bool {
    ||| exists|i: int| 0 <= i < records.len() && (#[trigger] records[i]).key.sequence == sequence
    ||| exists|i: int|
        0 <= i < tombstones.len() && (#[trigger] tombstones[i]).sequence == sequence
}

/// Whether a candidate is the least of the sequences that satisfy `member`.
pub open spec fn is_oldest(oldest: Option<Sequence>, member: spec_fn(Sequence) -> bool) -> bool {
    match oldest {
        Some(least) => {
            &&& member(least)
            &&& forall|other: Sequence| #[trigger] member(other) ==> least.0 <= other.0
        },
        None => forall|other: Sequence| !#[trigger] member(other),
    }
}

fn update_oldest_sequence(oldest: Option<Sequence>, candidate: Sequence) -> (updated: Option<
    Sequence,
>)
    ensures
        updated is Some,
        match oldest {
            Some(current) => updated->0 == if current.0 <= candidate.0 {
                current
            } else {
                candidate
            },
            None => updated->0 == candidate,
        },
{
    match oldest {
        Some(current) => if current.get() <= candidate.get() {
            Some(current)
        } else {
            Some(candidate)
        },
        None => Some(candidate),
    }
}

fn update_oldest_point_sequence(
    oldest: Option<Sequence>,
    memtable: &Memtable,
    Ghost(member): Ghost<spec_fn(Sequence) -> bool>,
) -> (updated: Option<Sequence>)
    requires
        is_oldest(oldest, member),
    ensures
        is_oldest(
            updated,
            |sequence: Sequence| member(sequence) || mentions(memtable@, Seq::empty(), sequence),
        ),
{
    let entries: &RecordRun = memtable.read_entries();
    let mut updated: Option<Sequence> = oldest;
    let mut i: usize = 0;
    proof {
        assert(is_oldest(
            updated,
            |sequence: Sequence| member(sequence) || mentions(
                memtable@.take(0),
                Seq::empty(),
                sequence,
            ),
        ));
    }
    while i < entries.len()
        invariant
            i <= entries@.len(),
            entries@ == memtable@,
            is_oldest(
                updated,
                |sequence: Sequence|
                    member(sequence) || mentions(memtable@.take(i as int), Seq::empty(), sequence),
            ),
        decreases entries@.len() - i,
    {
        let ghost before = updated;
        let ghost shorter = memtable@.take(i as int);
        let ghost longer = memtable@.take(i + 1);
        updated = update_oldest_sequence(updated, entries.get(i).key.sequence());
        proof {
            let added = memtable@[i as int].key.sequence;
            assert(longer[i as int].key.sequence == added);
            assert forall|sequence: Sequence|
                #[trigger] mentions(longer, Seq::empty(), sequence) <==> mentions(
                    shorter,
                    Seq::empty(),
                    sequence,
                ) || sequence == added by {
                if mentions(longer, Seq::empty(), sequence) {
                    let k = choose|k: int|
                        0 <= k < longer.len() && (#[trigger] longer[k]).key.sequence == sequence;
                    if k < i {
                        assert(shorter[k].key.sequence == sequence);
                    }
                }
                if mentions(shorter, Seq::empty(), sequence) {
                    let k = choose|k: int|
                        0 <= k < shorter.len() && (#[trigger] shorter[k]).key.sequence == sequence;
                    assert(longer[k].key.sequence == sequence);
                }
            }
            let old_member = |sequence: Sequence|
                member(sequence) || mentions(shorter, Seq::empty(), sequence);
            let new_member = |sequence: Sequence|
                member(sequence) || mentions(longer, Seq::empty(), sequence);
            assert(is_oldest(before, old_member));
            one_more_member(before, updated, old_member, new_member, added);
        }
        i += 1;
    }
    proof {
        assert(memtable@.take(i as int) =~= memtable@);
    }
    updated
}

fn update_oldest_tombstone_sequence(
    oldest: Option<Sequence>,
    tombstones: &Vec<RangeTombstone>,
    Ghost(member): Ghost<spec_fn(Sequence) -> bool>,
) -> (updated: Option<Sequence>)
    requires
        is_oldest(oldest, member),
    ensures
        is_oldest(
            updated,
            |sequence: Sequence|
                member(sequence) || mentions(
                    Seq::empty(),
                    range_tombstone::tombstones_of(tombstones@),
                    sequence,
                ),
        ),
{
    let ghost all = range_tombstone::tombstones_of(tombstones@);
    let mut updated: Option<Sequence> = oldest;
    let mut i: usize = 0;
    proof {
        assert(is_oldest(
            updated,
            |sequence: Sequence| member(sequence) || mentions(Seq::empty(), all.take(0), sequence),
        ));
    }
    while i < tombstones.len()
        invariant
            i <= tombstones@.len(),
            all == range_tombstone::tombstones_of(tombstones@),
            is_oldest(
                updated,
                |sequence: Sequence|
                    member(sequence) || mentions(Seq::empty(), all.take(i as int), sequence),
            ),
        decreases tombstones@.len() - i,
    {
        let ghost before = updated;
        let ghost shorter = all.take(i as int);
        let ghost longer = all.take(i + 1);
        updated = update_oldest_sequence(updated, tombstones[i].sequence);
        proof {
            let added = all[i as int].sequence;
            assert(longer[i as int].sequence == added);
            assert forall|sequence: Sequence|
                #[trigger] mentions(Seq::empty(), longer, sequence) <==> mentions(
                    Seq::empty(),
                    shorter,
                    sequence,
                ) || sequence == added by {
                if mentions(Seq::empty(), longer, sequence) {
                    let k = choose|k: int|
                        0 <= k < longer.len() && (#[trigger] longer[k]).sequence == sequence;
                    if k < i {
                        assert(shorter[k].sequence == sequence);
                    }
                }
                if mentions(Seq::empty(), shorter, sequence) {
                    let k = choose|k: int|
                        0 <= k < shorter.len() && (#[trigger] shorter[k]).sequence == sequence;
                    assert(longer[k].sequence == sequence);
                }
            }
            let old_member = |sequence: Sequence|
                member(sequence) || mentions(Seq::empty(), shorter, sequence);
            let new_member = |sequence: Sequence|
                member(sequence) || mentions(Seq::empty(), longer, sequence);
            assert(is_oldest(before, old_member));
            one_more_member(before, updated, old_member, new_member, added);
        }
        i += 1;
    }
    proof {
        assert(all.take(i as int) =~= all);
    }
    updated
}

proof fn one_more_member(
    before: Option<Sequence>,
    after: Option<Sequence>,
    old_member: spec_fn(Sequence) -> bool,
    new_member: spec_fn(Sequence) -> bool,
    added: Sequence,
)
    requires
        is_oldest(before, old_member),
        forall|sequence: Sequence| #[trigger]
            new_member(sequence) <==> old_member(sequence) || sequence == added,
        after is Some,
        match before {
            Some(current) => after->0 == if current.0 <= added.0 {
                current
            } else {
                added
            },
            None => after->0 == added,
        },
    ensures
        is_oldest(after, new_member),
{
    assert(new_member(added));
    if let Some(current) = before {
        assert(old_member(current));
        assert(new_member(current));
    }
    assert forall|other: Sequence| #[trigger] new_member(other) implies (after->0).0 <= other.0 by {
        if old_member(other) {
            assert(before is Some);
        }
    }
}

proof fn same_members(
    oldest: Option<Sequence>,
    a: spec_fn(Sequence) -> bool,
    b: spec_fn(Sequence) -> bool,
)
    requires
        is_oldest(oldest, a),
        forall|sequence: Sequence| #[trigger] b(sequence) <==> a(sequence),
    ensures
        is_oldest(oldest, b),
{
    if let Some(least) = oldest {
        assert(a(least));
        assert(b(least));
    } else {
        assert forall|other: Sequence| !#[trigger] b(other) by {
            assert(!a(other));
        }
    }
}

impl LsmTree {
    /// Whether a queued memtable other than the flushed ones mentions the sequence.
    pub open spec fn queue_mentions(
        &self,
        flushed: Seq<u64>,
        count: int,
        sequence: Sequence,
    ) -> bool {
        exists|i: int|
            0 <= i < count && !flushed.contains((#[trigger] self.immutable_memtables@[i]).id)
                && mentions(
                self.immutable_memtables@[i].memtable@,
                self.immutable_memtables@[i].tombstones(),
                sequence,
            )
    }

    /// Whether a commit is in a memtable other than the flushed ones.
    pub open spec fn unflushed(&self, flushed: Seq<u64>, sequence: Sequence) -> bool {
        mentions(self.active_memtable@, self.tombstones(), sequence) || self.queue_mentions(
            flushed,
            self.immutable_memtables@.len() as int,
            sequence,
        )
    }

    /// Returns the oldest commit that would still have to be replayed from the log
    /// once the named memtables are durable.
    pub fn oldest_unflushed_sequence_excluding(&self, flushed: &Vec<u64>) -> (oldest: Option<
        Sequence,
    >)
        ensures
            is_oldest(oldest, |sequence: Sequence| self.unflushed(flushed@, sequence)),
            forall|record: Record| #[trigger]
                self.active_memtable@.contains(record) ==> oldest is Some && (oldest->0).0
                    <= record.key.sequence.0,
            forall|tombstone: Tombstone| #[trigger]
                self.tombstones().contains(tombstone) ==> oldest is Some && (oldest->0).0
                    <= tombstone.sequence.0,
    {
        let ghost nothing = |sequence: Sequence| false;
        let mut oldest: Option<Sequence> = update_oldest_point_sequence(
            None,
            &self.active_memtable,
            Ghost(nothing),
        );
        let ghost points = |sequence: Sequence|
            nothing(sequence) || mentions(self.active_memtable@, Seq::empty(), sequence);
        oldest = update_oldest_tombstone_sequence(oldest, &self.range_tombstones, Ghost(points));
        let ghost active = |sequence: Sequence|
            points(sequence) || mentions(Seq::empty(), self.tombstones(), sequence);
        let mut i: usize = 0;
        proof {
            let target = |sequence: Sequence|
                mentions(self.active_memtable@, self.tombstones(), sequence) || self.queue_mentions(
                    flushed@,
                    0,
                    sequence,
                );
            assert forall|sequence: Sequence| #[trigger] target(sequence) <==> active(sequence) by {
                split_mentions(self.active_memtable@, self.tombstones(), sequence);
            }
            same_members(oldest, active, target);
        }
        while i < self.immutable_memtables.len()
            invariant
                i <= self.immutable_memtables@.len(),
                is_oldest(
                    oldest,
                    |sequence: Sequence|
                        mentions(self.active_memtable@, self.tombstones(), sequence)
                            || self.queue_mentions(flushed@, i as int, sequence),
                ),
            decreases self.immutable_memtables@.len() - i,
        {
            let ghost before = |sequence: Sequence|
                mentions(self.active_memtable@, self.tombstones(), sequence) || self.queue_mentions(
                    flushed@,
                    i as int,
                    sequence,
                );
            let immutable: &ImmutableMemtable = &self.immutable_memtables[i];
            let skipped: bool = contains_id(flushed, immutable.id);
            let ghost own = self.immutable_memtables@[i as int];
            let ghost joined = |sequence: Sequence|
                before(sequence) || mentions(own.memtable@, own.tombstones(), sequence);
            if !skipped {
                oldest = update_oldest_point_sequence(oldest, &immutable.memtable, Ghost(before));
                let ghost with_points = |sequence: Sequence|
                    before(sequence) || mentions(immutable.memtable@, Seq::empty(), sequence);
                oldest = update_oldest_tombstone_sequence(
                    oldest,
                    &*immutable.range_tombstones,
                    Ghost(with_points),
                );
                proof {
                    let reached = |sequence: Sequence|
                        with_points(sequence) || mentions(
                            Seq::empty(),
                            range_tombstone::tombstones_of(immutable.range_tombstones@),
                            sequence,
                        );
                    assert forall|sequence: Sequence| #[trigger] joined(sequence) <==> reached(
                        sequence,
                    ) by {
                        split_mentions(own.memtable@, own.tombstones(), sequence);
                    }
                    same_members(oldest, reached, joined);
                }
            }
            proof {
                let target = |sequence: Sequence|
                    mentions(self.active_memtable@, self.tombstones(), sequence)
                        || self.queue_mentions(flushed@, i + 1, sequence);
                assert forall|sequence: Sequence|
                    #[trigger] target(sequence) <==> before(sequence) || (!skipped && mentions(
                        own.memtable@,
                        own.tombstones(),
                        sequence,
                    )) by {
                    if self.queue_mentions(flushed@, i + 1, sequence) {
                        let k = choose|k: int|
                            0 <= k < i + 1 && !flushed@.contains(
                                (#[trigger] self.immutable_memtables@[k]).id,
                            ) && mentions(
                                self.immutable_memtables@[k].memtable@,
                                self.immutable_memtables@[k].tombstones(),
                                sequence,
                            );
                        if k < i {
                            assert(self.queue_mentions(flushed@, i as int, sequence));
                        }
                    }
                    if self.queue_mentions(flushed@, i as int, sequence) {
                        let k = choose|k: int|
                            0 <= k < i && !flushed@.contains(
                                (#[trigger] self.immutable_memtables@[k]).id,
                            ) && mentions(
                                self.immutable_memtables@[k].memtable@,
                                self.immutable_memtables@[k].tombstones(),
                                sequence,
                            );
                        assert(self.queue_mentions(flushed@, i + 1, sequence));
                    }
                }
                if skipped {
                    same_members(oldest, before, target);
                } else {
                    same_members(oldest, joined, target);
                }
            }
            i += 1;
        }
        proof {
            let reached = |sequence: Sequence|
                mentions(self.active_memtable@, self.tombstones(), sequence) || self.queue_mentions(
                    flushed@,
                    i as int,
                    sequence,
                );
            same_members(oldest, reached, |sequence: Sequence| self.unflushed(flushed@, sequence));
            log_is_kept_from_the_oldest_unflushed_commit(*self, flushed@, oldest);
        }
        oldest
    }

    /// Prepares one table for each queued memtable that holds anything.
    pub fn prepare_flush_inputs(&self) -> (inputs: Vec<FlushInput>)
        ensures
            are_inputs_of(inputs@, self.immutable_memtables@, self.options@),
    {
        let ghost queue = self.immutable_memtables@;
        let ghost keep = |immutable: ImmutableMemtable| holds_anything(immutable);
        let mut inputs: Vec<FlushInput> = Vec::new();
        let mut i: usize = 0;
        proof {
            reveal(Seq::filter);
            assert(queue.take(0).filter(keep) =~= Seq::<ImmutableMemtable>::empty());
        }
        while i < self.immutable_memtables.len()
            invariant
                queue == self.immutable_memtables@,
                keep == (|immutable: ImmutableMemtable| holds_anything(immutable)),
                i <= queue.len(),
                inputs@.len() == queue.take(i as int).filter(keep).len(),
                forall|j: int|
                    0 <= j < inputs@.len() ==> is_input_of(
                        #[trigger] inputs@[j],
                        queue.take(i as int).filter(keep)[j],
                        self.options@,
                    ),
            decreases queue.len() - i,
        {
            let ghost kept = queue.take(i as int).filter(keep);
            proof {
                reveal(Seq::filter);
                assert(queue.take(i + 1).drop_last() =~= queue.take(i as int));
                assert(queue.take(i + 1).last() == queue[i as int]);
            }
            let immutable: &ImmutableMemtable = &self.immutable_memtables[i];
            let point_records: Vec<MemtableEntry> = memtable::clone_entries(
                immutable.memtable.read_entries(),
            );
            let range_tombstones: Vec<RangeTombstone> = range_tombstone::clone_tombstones(
                &*immutable.range_tombstones,
            );
            assert(point_records@.len() == memtable::records_of(point_records@).len());
            assert(range_tombstones@.len() == range_tombstone::tombstones_of(
                range_tombstones@,
            ).len());
            if point_records.len() > 0 || range_tombstones.len() > 0 {
                inputs.push(
                    FlushInput {
                        memtable_id: immutable.id,
                        memtable: Arc::clone(&immutable.memtable),
                        freeze_sequence: immutable.freeze_sequence,
                        table_level: TableLevel::zero(),
                        table_options: table_write_options(&self.options),
                        point_records,
                        range_tombstones,
                    },
                );
                assert(queue.take(i + 1).filter(keep) == kept.push(queue[i as int]));
            } else {
                assert(queue.take(i + 1).filter(keep) == kept);
            }
            i += 1;
        }
        proof {
            assert(queue.take(i as int) =~= queue);
        }
        inputs
    }

    /// Whether the queued memtable at `at` is the one that a flush wrote.
    pub open spec fn queued_at(&self, at: int, input: FlushInput) -> bool {
        self.immutable_memtables@[at].freeze_sequence == input.freeze_sequence
            && self.immutable_memtables@[at].id == input.memtable_id
    }

    /// Shows a flushed table to readers and drops its memtable from the queue.
    pub fn install_flush(&mut self, input: &FlushInput, table: Arc<Table>) -> (result: Result<()>)
        requires
            old(self).wf(),
            table.wf(),
        ensures
            final(self).wf(),
            match result {
                Ok(_) => {
                    &&& !version::has_duplicate_id(
                        old(self).current_version.tables@.push(table),
                    )
                    &&& exists|at: int| #[trigger]
                        is_flushed(*old(self), *final(self), input, table, at)
                },
                Err(error) => {
                    ||| version::has_duplicate_id(old(self).current_version.tables@.push(table))
                        && *final(self) == *old(self) && error.says(
                        ErrorKind::Corruption,
                        "table id is used more than once"@,
                    )
                    ||| !version::has_duplicate_id(old(self).current_version.tables@.push(table))
                        && tree::same_memory(*old(self), *final(self))
                        && final(self).current_version.tables@ == old(
                        self,
                    ).current_version.tables@.push(table) && (forall|at: int|
                        0 <= at < old(self).immutable_memtables@.len() ==> !#[trigger] old(
                            self,
                        ).queued_at(at, *input)) && error.says(
                        ErrorKind::Corruption,
                        "flushed immutable memtable is no longer queued"@,
                    )
                },
            },
    {
        let version: LsmVersion = match self.current_version.with_added_l0_table(table) {
            Ok(version) => version,
            Err(error) => {
                return Err(error);
            },
        };
        self.install_version(version);
        // The table is shown before the memtable is dropped: a reader in between may
        // see both copies, but it cannot miss a record.
        let ghost middle = *self;
        let mut at: usize = 0;
        while at < self.immutable_memtables.len()
            invariant
                *self == middle,
                middle.wf(),
                middle.immutable_memtables == old(self).immutable_memtables,
                at <= middle.immutable_memtables@.len(),
                forall|i: int| 0 <= i < at ==> !#[trigger] middle.queued_at(i, *input),
                middle.current_version.tables@ == old(self).current_version.tables@.push(table),
                tree::same_memory(*old(self), middle),
                !version::has_duplicate_id(old(self).current_version.tables@.push(table)),
            decreases middle.immutable_memtables@.len() - at,
        {
            if self.immutable_memtables[at].freeze_sequence.get() == input.freeze_sequence.get()
                && self.immutable_memtables[at].id == input.memtable_id {
                assert(middle.queued_at(at as int, *input));
                self.immutable_memtables.remove(at);
                self.immutable_memtable_count -= 1;
                proof {
                    let queue = middle.immutable_memtables@;
                    assert(self.immutable_memtables@ == queue.remove(at as int));
                    assert forall|i: int| 0 <= i < self.immutable_memtables@.len() implies (
                    #[trigger] self.immutable_memtables@[i]).wf() && self.immutable_memtables@[i].id
                        < self.next_memtable_id by {
                        let k = if i < at {
                            i
                        } else {
                            i + 1
                        };
                        assert(queue[k].wf());
                    }
                    assert(is_flushed(*old(self), *self, input, table, at as int));
                }
                return Ok(());
            }
            at += 1;
        }
        assert forall|i: int|
            0 <= i < old(self).immutable_memtables@.len() implies !#[trigger] old(self).queued_at(
            i,
            *input,
        ) by {
            assert(!middle.queued_at(i, *input));
        }
        Err(Error::corruption("flushed immutable memtable is no longer queued"))
    }
}

/// Replaying the log from the oldest commit that is not flushed restores everything that only
/// memory holds: every record and every range deletion of the active memtable, and of the queued
/// memtables that are not named as flushed, is of that commit or a later one. The commit is one
/// of theirs, and there is none only where they hold nothing.
pub proof fn log_is_kept_from_the_oldest_unflushed_commit(
    tree: LsmTree,
    flushed: Seq<u64>,
    oldest: Option<Sequence>,
)
    requires
        is_oldest(oldest, |sequence: Sequence| tree.unflushed(flushed, sequence)),
    ensures
        forall|record: Record| #[trigger]
            tree.active_memtable@.contains(record) ==> oldest is Some && (oldest->0).0
                <= record.key.sequence.0,
        forall|tombstone: Tombstone| #[trigger]
            tree.tombstones().contains(tombstone) ==> oldest is Some && (oldest->0).0
                <= tombstone.sequence.0,
        forall|i: int, record: Record|
            0 <= i < tree.immutable_memtables@.len() && !flushed.contains(
                tree.immutable_memtables@[i].id,
            ) && #[trigger] tree.immutable_memtables@[i].memtable@.contains(record) ==> oldest
                is Some && (oldest->0).0 <= record.key.sequence.0,
        forall|i: int, tombstone: Tombstone|
            0 <= i < tree.immutable_memtables@.len() && !flushed.contains(
                tree.immutable_memtables@[i].id,
            ) && #[trigger] tree.immutable_memtables@[i].tombstones().contains(tombstone) ==> oldest
                is Some && (oldest->0).0 <= tombstone.sequence.0,
        oldest matches Some(least) ==> {
            ||| exists|record: Record| #[trigger]
                tree.active_memtable@.contains(record) && record.key.sequence == least
            ||| exists|tombstone: Tombstone| #[trigger]
                tree.tombstones().contains(tombstone) && tombstone.sequence == least
            ||| exists|i: int, record: Record|
                0 <= i < tree.immutable_memtables@.len() && !flushed.contains(
                    tree.immutable_memtables@[i].id,
                ) && #[trigger] tree.immutable_memtables@[i].memtable@.contains(record)
                    && record.key.sequence == least
            ||| exists|i: int, tombstone: Tombstone|
                0 <= i < tree.immutable_memtables@.len() && !flushed.contains(
                    tree.immutable_memtables@[i].id,
                ) && #[trigger] tree.immutable_memtables@[i].tombstones().contains(tombstone)
                    && tombstone.sequence == least
        },
{
    let member = |sequence: Sequence| tree.unflushed(flushed, sequence);
    let queue = tree.immutable_memtables@;
    assert forall|record: Record| #[trigger]
        tree.active_memtable@.contains(record) implies member(record.key.sequence) by {
        held_record_is_mentioned(tree.active_memtable@, tree.tombstones(), record);
    }
    assert forall|tombstone: Tombstone| #[trigger]
        tree.tombstones().contains(tombstone) implies member(tombstone.sequence) by {
        held_tombstone_is_mentioned(tree.active_memtable@, tree.tombstones(), tombstone);
    }
    assert forall|i: int, record: Record|
        0 <= i < queue.len() && !flushed.contains(queue[i].id)
            && #[trigger] queue[i].memtable@.contains(record) implies member(
        record.key.sequence,
    ) by {
        held_record_is_mentioned(queue[i].memtable@, queue[i].tombstones(), record);
        assert(tree.queue_mentions(flushed, queue.len() as int, record.key.sequence));
    }
    assert forall|i: int, tombstone: Tombstone|
        0 <= i < queue.len() && !flushed.contains(queue[i].id)
            && #[trigger] queue[i].tombstones().contains(tombstone) implies member(
        tombstone.sequence,
    ) by {
        held_tombstone_is_mentioned(queue[i].memtable@, queue[i].tombstones(), tombstone);
        assert(tree.queue_mentions(flushed, queue.len() as int, tombstone.sequence));
    }
    if let Some(least) = oldest {
        assert(member(least));
        if mentions(tree.active_memtable@, tree.tombstones(), least) {
            mentioned_is_held(tree.active_memtable@, tree.tombstones(), least);
        } else {
            let i = choose|i: int|
                0 <= i < queue.len() && !flushed.contains((#[trigger] queue[i]).id) && mentions(
                    queue[i].memtable@,
                    queue[i].tombstones(),
                    least,
                );
            mentioned_is_held(queue[i].memtable@, queue[i].tombstones(), least);
            if exists|record: Record| #[trigger]
                queue[i].memtable@.contains(record) && record.key.sequence == least {
                let record = choose|record: Record| #[trigger]
                    queue[i].memtable@.contains(record) && record.key.sequence == least;
                assert(tree.immutable_memtables@[i].memtable@.contains(record));
            } else {
                let tombstone = choose|tombstone: Tombstone| #[trigger]
                    queue[i].tombstones().contains(tombstone) && tombstone.sequence == least;
                assert(tree.immutable_memtables@[i].tombstones().contains(tombstone));
            }
        }
    }
}

proof fn held_record_is_mentioned(
    records: Seq<Record>,
    tombstones: Seq<Tombstone>,
    record: Record,
)
    requires
        records.contains(record),
    ensures
        mentions(records, tombstones, record.key.sequence),
{
    let i = choose|i: int| 0 <= i < records.len() && records[i] == record;
    assert(records[i].key.sequence == record.key.sequence);
}

proof fn held_tombstone_is_mentioned(
    records: Seq<Record>,
    tombstones: Seq<Tombstone>,
    tombstone: Tombstone,
)
    requires
        tombstones.contains(tombstone),
    ensures
        mentions(records, tombstones, tombstone.sequence),
{
    let i = choose|i: int| 0 <= i < tombstones.len() && tombstones[i] == tombstone;
    assert(tombstones[i].sequence == tombstone.sequence);
}

proof fn mentioned_is_held(records: Seq<Record>, tombstones: Seq<Tombstone>, sequence: Sequence)
    requires
        mentions(records, tombstones, sequence),
    ensures
        (exists|record: Record| #[trigger]
            records.contains(record) && record.key.sequence == sequence) || (exists|
            tombstone: Tombstone,
        | #[trigger]
            tombstones.contains(tombstone) && tombstone.sequence == sequence),
{
    if exists|i: int| 0 <= i < records.len() && (#[trigger] records[i]).key.sequence == sequence {
        let i = choose|i: int|
            0 <= i < records.len() && (#[trigger] records[i]).key.sequence == sequence;
        assert(records.contains(records[i]));
    } else {
        let i = choose|i: int|
            0 <= i < tombstones.len() && (#[trigger] tombstones[i]).sequence == sequence;
        assert(tombstones.contains(tombstones[i]));
    }
}

/// The lesser of two commits, where there is one.
pub open spec fn earlier(a: Option<Sequence>, b: Sequence) -> Sequence {
    match a {
        Some(a) => if a.0 <= b.0 {
            a
        } else {
            b
        },
        None => b,
    }
}

proof fn oldest_is_unique(
    a: Option<Sequence>,
    b: Option<Sequence>,
    first: spec_fn(Sequence) -> bool,
    second: spec_fn(Sequence) -> bool,
)
    requires
        is_oldest(a, first),
        is_oldest(b, second),
        forall|sequence: Sequence| #[trigger] first(sequence) == second(sequence),
    ensures
        a == b,
{
    if let Some(least) = a {
        assert(first(least));
    }
    if let Some(least) = b {
        assert(second(least));
        assert(first(least));
    }
}

/// A write to the active memtable must be replayed: the oldest commit that is not flushed is then
/// the commit of the write, or the one it was before where that is older.
pub proof fn a_write_is_replayed(
    before: LsmTree,
    after: LsmTree,
    operation: Operation,
    sequence: Sequence,
    batch_index: u32,
    flushed: Seq<u64>,
    oldest: Option<Sequence>,
    now: Option<Sequence>,
)
    requires
        tree::applied(before, after, operation, sequence, batch_index),
        is_oldest(oldest, |sequence: Sequence| before.unflushed(flushed, sequence)),
        is_oldest(now, |sequence: Sequence| after.unflushed(flushed, sequence)),
    ensures
        now == Some(earlier(oldest, sequence)),
{
    let first = |sequence: Sequence| before.unflushed(flushed, sequence);
    let second = |sequence: Sequence| after.unflushed(flushed, sequence);
    assert(after.immutable_memtables == before.immutable_memtables);
    match operation.record(sequence, batch_index) {
        Some(added) => {
            assert(after.active_memtable@.contains(added));
            held_record_is_mentioned(after.active_memtable@, after.tombstones(), added);
            assert forall|other: Sequence| #[trigger]
                mentions(after.active_memtable@, after.tombstones(), other) == (mentions(
                    before.active_memtable@,
                    before.tombstones(),
                    other,
                ) || other == sequence) by {
                if mentions(after.active_memtable@, after.tombstones(), other) {
                    mentioned_is_held(after.active_memtable@, after.tombstones(), other);
                    if exists|record: Record| #[trigger]
                        after.active_memtable@.contains(record) && record.key.sequence == other {
                        let record = choose|record: Record| #[trigger]
                            after.active_memtable@.contains(record) && record.key.sequence == other;
                        if record != added {
                            held_record_is_mentioned(
                                before.active_memtable@,
                                before.tombstones(),
                                record,
                            );
                        }
                    } else {
                        let tombstone = choose|tombstone: Tombstone| #[trigger]
                            after.tombstones().contains(tombstone) && tombstone.sequence == other;
                        held_tombstone_is_mentioned(
                            before.active_memtable@,
                            before.tombstones(),
                            tombstone,
                        );
                    }
                }
                if mentions(before.active_memtable@, before.tombstones(), other) {
                    mentioned_is_held(before.active_memtable@, before.tombstones(), other);
                    if exists|record: Record| #[trigger]
                        before.active_memtable@.contains(record) && record.key.sequence == other {
                        let record = choose|record: Record| #[trigger]
                            before.active_memtable@.contains(record) && record.key.sequence
                                == other;
                        if record.key != added.key {
                            assert(after.active_memtable@.contains(record));
                            held_record_is_mentioned(
                                after.active_memtable@,
                                after.tombstones(),
                                record,
                            );
                        }
                    } else {
                        let tombstone = choose|tombstone: Tombstone| #[trigger]
                            before.tombstones().contains(tombstone) && tombstone.sequence == other;
                        held_tombstone_is_mentioned(
                            after.active_memtable@,
                            after.tombstones(),
                            tombstone,
                        );
                    }
                }
            }
        },
        None => {
            let added = operation.tombstone(sequence, batch_index)->0;
            let older = before.tombstones();
            let newer = after.tombstones();
            assert(newer[older.len() as int].sequence == sequence);
            assert forall|other: Sequence| #[trigger]
                mentions(after.active_memtable@, newer, other) == (mentions(
                    before.active_memtable@,
                    older,
                    other,
                ) || other == sequence) by {
                if mentions(before.active_memtable@, older, other) && exists|i: int|
                    0 <= i < older.len() && (#[trigger] older[i]).sequence == other {
                    let i = choose|i: int|
                        0 <= i < older.len() && (#[trigger] older[i]).sequence == other;
                    assert(newer[i].sequence == other);
                }
                if mentions(after.active_memtable@, newer, other) && exists|i: int|
                    0 <= i < newer.len() && (#[trigger] newer[i]).sequence == other {
                    let i = choose|i: int|
                        0 <= i < newer.len() && (#[trigger] newer[i]).sequence == other;
                    if i < older.len() {
                        assert(older[i].sequence == other);
                    }
                }
            }
        },
    }
    assert forall|other: Sequence| #[trigger]
        after.queue_mentions(flushed, after.immutable_memtables@.len() as int, other)
            == before.queue_mentions(
            flushed,
            before.immutable_memtables@.len() as int,
            other,
        ) by {}
    assert forall|other: Sequence| #[trigger] second(other) <==> first(other) || other
        == sequence by {}
    let expected = Some(earlier(oldest, sequence));
    one_more_member(oldest, expected, first, second, sequence);
    assert forall|other: Sequence| #[trigger] second(other) == second(other) by {}
    oldest_is_unique(now, expected, second, second);
}

/// Queuing the active memtable does not change what must be replayed.
pub proof fn freeze_keeps_what_is_replayed(
    before: LsmTree,
    after: LsmTree,
    sequence: Sequence,
    flushed: Seq<u64>,
    oldest: Option<Sequence>,
    now: Option<Sequence>,
)
    requires
        tree::is_frozen(before, after, sequence),
        !flushed.contains(before.next_memtable_id),
        is_oldest(oldest, |sequence: Sequence| before.unflushed(flushed, sequence)),
        is_oldest(now, |sequence: Sequence| after.unflushed(flushed, sequence)),
    ensures
        now == oldest,
{
    let first = |sequence: Sequence| before.unflushed(flushed, sequence);
    let second = |sequence: Sequence| after.unflushed(flushed, sequence);
    let queue = before.immutable_memtables@;
    let longer = after.immutable_memtables@;
    let last = queue.len() as int;
    assert forall|i: int| 0 <= i < last implies #[trigger] longer[i] == queue[i] by {
        assert(longer.drop_last()[i] == queue[i]);
    }
    assert forall|other: Sequence| #[trigger] second(other) == first(other) by {
        if second(other) {
            assert(after.queue_mentions(flushed, longer.len() as int, other));
            let i = choose|i: int|
                0 <= i < longer.len() && !flushed.contains((#[trigger] longer[i]).id) && mentions(
                    longer[i].memtable@,
                    longer[i].tombstones(),
                    other,
                );
            if i < last {
                assert(queue[i] == longer[i]);
                assert(before.queue_mentions(flushed, last, other));
            }
        }
        if first(other) {
            if mentions(before.active_memtable@, before.tombstones(), other) {
                assert(longer[last].memtable == before.active_memtable);
                assert(after.queue_mentions(flushed, longer.len() as int, other));
            } else {
                let i = choose|i: int|
                    0 <= i < last && !flushed.contains((#[trigger] queue[i]).id) && mentions(
                        queue[i].memtable@,
                        queue[i].tombstones(),
                        other,
                    );
                assert(longer[i] == queue[i]);
                assert(after.queue_mentions(flushed, longer.len() as int, other));
            }
        }
    }
    oldest_is_unique(now, oldest, second, first);
}

/// A memtable that was flushed need not be replayed any more: what must be replayed after the
/// flush is what had to be replayed before it, but for that memtable.
pub proof fn a_flushed_memtable_is_not_replayed(
    before: LsmTree,
    after: LsmTree,
    input: &FlushInput,
    table: Arc<Table>,
    at: int,
    flushed: Seq<u64>,
    oldest: Option<Sequence>,
    now: Option<Sequence>,
)
    requires
        before.wf(),
        is_flushed(before, after, input, table, at),
        is_oldest(
            oldest,
            |sequence: Sequence| before.unflushed(flushed.push(input.memtable_id), sequence),
        ),
        is_oldest(now, |sequence: Sequence| after.unflushed(flushed, sequence)),
    ensures
        now == oldest,
        after.immutable_memtables@.len() + 1 == before.immutable_memtables@.len(),
        forall|i: int|
            0 <= i < after.immutable_memtables@.len() ==> (
            #[trigger] after.immutable_memtables@[i]).id != input.memtable_id,
        forall|k: int|
            0 <= k < before.immutable_memtables@.len() && (
            #[trigger] before.immutable_memtables@[k]).id != input.memtable_id
                ==> after.immutable_memtables@.contains(before.immutable_memtables@[k]),
{
    let named = flushed.push(input.memtable_id);
    let first = |sequence: Sequence| before.unflushed(named, sequence);
    let second = |sequence: Sequence| after.unflushed(flushed, sequence);
    let queue = before.immutable_memtables@;
    let rest = after.immutable_memtables@;
    assert forall|id: u64| #[trigger] named.contains(id) == (flushed.contains(id) || id
        == input.memtable_id) by {
        if flushed.contains(id) {
            let k = choose|k: int| 0 <= k < flushed.len() && flushed[k] == id;
            assert(named[k] == id);
        }
        assert(named[flushed.len() as int] == input.memtable_id);
    }
    assert forall|i: int| 0 <= i < rest.len() implies (#[trigger] rest[i]).id
        != input.memtable_id by {
        if i < at {
            assert(rest[i] == queue[i]);
            assert(queue[i].id < queue[at].id);
        } else {
            assert(rest[i] == queue[i + 1]);
            assert(queue[at].id < queue[i + 1].id);
        }
    }
    assert forall|k: int| 0 <= k < queue.len() && (#[trigger] queue[k]).id
        != input.memtable_id implies rest.contains(queue[k]) by {
        if k < at {
            assert(rest[k] == queue[k]);
        } else {
            assert(rest[k - 1] == queue[k]);
        }
    }
    assert forall|other: Sequence| #[trigger] second(other) == first(other) by {
        if after.queue_mentions(flushed, rest.len() as int, other) {
            let i = choose|i: int|
                0 <= i < rest.len() && !flushed.contains((#[trigger] rest[i]).id) && mentions(
                    rest[i].memtable@,
                    rest[i].tombstones(),
                    other,
                );
            let k = if i < at {
                i
            } else {
                i + 1
            };
            assert(queue[k] == rest[i]);
            assert(before.queue_mentions(named, queue.len() as int, other));
        }
        if before.queue_mentions(named, queue.len() as int, other) {
            let k = choose|k: int|
                0 <= k < queue.len() && !named.contains((#[trigger] queue[k]).id) && mentions(
                    queue[k].memtable@,
                    queue[k].tombstones(),
                    other,
                );
            let i = if k < at {
                k
            } else {
                k - 1
            };
            assert(rest[i] == queue[k]);
            assert(after.queue_mentions(flushed, rest.len() as int, other));
        }
    }
    oldest_is_unique(now, oldest, second, first);
}

/// Whether a table of level zero is written with everything that a queued memtable holds.
pub open spec fn flushes_whole(input: FlushInput, queued: ImmutableMemtable) -> bool {
    &&& input.memtable_id == queued.id
    &&& input.freeze_sequence == queued.freeze_sequence
    &&& input.table_level.0 == 0
    &&& forall|record: Record| #[trigger]
        memtable::records_of(input.point_records@).contains(record)
            <==> queued.memtable@.contains(record)
    &&& forall|tombstone: Tombstone| #[trigger]
        range_tombstone::tombstones_of(input.range_tombstones@).contains(tombstone)
            <==> queued.tombstones().contains(tombstone)
}

/// Whether a table of level zero is written with everything that one of the queued memtables
/// holds.
pub open spec fn flushes_one_of(input: FlushInput, queue: Seq<ImmutableMemtable>) -> bool {
    exists|k: int| 0 <= k < queue.len() && flushes_whole(input, #[trigger] queue[k])
}

/// Flushing writes everything that waits: for each queued memtable with a record or a range
/// deletion there is an input of level zero that holds exactly what it holds, and each input is
/// of one of them, in the order of the queue.
pub proof fn everything_queued_is_flushed(
    tree: LsmTree,
    inputs: Seq<FlushInput>,
)
    requires
        tree.wf(),
        are_inputs_of(inputs, tree.immutable_memtables@, tree.options@),
    ensures
        forall|k: int|
            0 <= k < tree.immutable_memtables@.len() && ((
            #[trigger] tree.immutable_memtables@[k]).memtable@.len() > 0
                || tree.immutable_memtables@[k].tombstones().len() > 0) ==> exists|i: int|
                0 <= i < inputs.len() && (#[trigger] inputs[i]).memtable_id
                    == tree.immutable_memtables@[k].id,
        forall|i: int|
            0 <= i < inputs.len() ==> flushes_one_of(
                #[trigger] inputs[i],
                tree.immutable_memtables@,
            ),
        forall|i: int, j: int|
            0 <= i < j < inputs.len() ==> (#[trigger] inputs[i]).memtable_id < (
            #[trigger] inputs[j]).memtable_id,
{
    let queue = tree.immutable_memtables@;
    let keep = |immutable: ImmutableMemtable| holds_anything(immutable);
    let kept = queue.filter(keep);
    assert forall|k: int| 0 <= k < queue.len() && ((#[trigger] queue[k]).memtable@.len() > 0
        || queue[k].tombstones().len() > 0) implies exists|i: int|
        0 <= i < inputs.len() && (#[trigger] inputs[i]).memtable_id == queue[k].id by {
        assert(keep(queue[k]));
        queue.lemma_filter_contains(keep, k);
        let i = choose|i: int| 0 <= i < kept.len() && kept[i] == queue[k];
        assert(is_input_of(inputs[i], kept[i], tree.options@));
    }
    assert forall|i: int| 0 <= i < inputs.len() implies flushes_one_of(
        #[trigger] inputs[i],
        queue,
    ) by {
        assert(is_input_of(inputs[i], kept[i], tree.options@));
        assert(kept.contains(kept[i]));
        queue.lemma_filter_contains_rev(keep, kept[i]);
        let k = choose|k: int| 0 <= k < queue.len() && queue[k] == kept[i];
        assert(flushes_whole(inputs[i], queue[k]));
    }
    ids_stay_ordered(queue, keep);
    assert forall|i: int, j: int| 0 <= i < j < inputs.len() implies (
    #[trigger] inputs[i]).memtable_id < (#[trigger] inputs[j]).memtable_id by {
        assert(is_input_of(inputs[i], kept[i], tree.options@));
        assert(is_input_of(inputs[j], kept[j], tree.options@));
    }
}

proof fn ids_stay_ordered(
    queue: Seq<ImmutableMemtable>,
    keep: spec_fn(ImmutableMemtable) -> bool,
)
    requires
        forall|i: int, j: int|
            0 <= i < j < queue.len() ==> (#[trigger] queue[i]).id < (#[trigger] queue[j]).id,
    ensures
        forall|i: int, j: int|
            0 <= i < j < queue.filter(keep).len() ==> (#[trigger] queue.filter(keep)[i]).id < (
            #[trigger] queue.filter(keep)[j]).id,
    decreases queue.len(),
{
    reveal(Seq::filter);
    if queue.len() > 0 {
        let shorter = queue.drop_last();
        ids_stay_ordered(shorter, keep);
        let kept = shorter.filter(keep);
        assert forall|i: int| 0 <= i < kept.len() implies (#[trigger] kept[i]).id
            < queue.last().id by {
            assert(kept.contains(kept[i]));
            shorter.lemma_filter_contains_rev(keep, kept[i]);
            let k = choose|k: int| 0 <= k < shorter.len() && shorter[k] == kept[i];
            assert(queue[k].id < queue[queue.len() - 1].id);
        }
    }
}

/// A flushed table is written as its bucket is set up.
pub proof fn flushed_tables_follow_their_bucket(options: TableWriteOptions, bucket: BucketOptions)
    requires
        derived_from(options, bucket@),
    ensures
        options.codec == bucket.compression.spec_codec_id(),
        options.block_bytes == bucket.block_bytes,
        options.filter_policy == bucket.filter_policy,
        options.prefix_extractor@ == bucket.prefix_extractor@,
        options.prefix_filter_policy == bucket.prefix_filter_policy,
        options.filter_depth_curve == bucket.filter_depth_curve,
        options.blob_threshold_bytes == bucket.blob_threshold_bytes,
        !options.rewrite_blob_indexes,
{
}

/// Whether `after` is `before` with one memtable replaced by its table.
pub open spec fn is_flushed(
    before: LsmTree,
    after: LsmTree,
    input: &FlushInput,
    table: Arc<Table>,
    at: int,
) -> bool {
    &&& 0 <= at < before.immutable_memtables@.len()
    &&& before.queued_at(at, *input)
    &&& forall|i: int| 0 <= i < at ==> !#[trigger] before.queued_at(i, *input)
    &&& after.immutable_memtables@ == before.immutable_memtables@.remove(at)
    &&& after.current_version.tables@ == before.current_version.tables@.push(table)
    &&& after.active_memtable == before.active_memtable
    &&& after.range_tombstones == before.range_tombstones
    &&& after.delta_shards == before.delta_shards
    &&& after.delta_mirror_sequence == before.delta_mirror_sequence
    &&& after.options == before.options
    &&& after.lifecycle == before.lifecycle
    &&& after.next_memtable_id == before.next_memtable_id
}

/// A flush whose table holds what its memtable held loses nothing and adds nothing.
pub proof fn flush_keeps_contents(
    before: LsmTree,
    after: LsmTree,
    input: &FlushInput,
    table: Arc<Table>,
    at: int,
    record: Record,
    tombstone: Tombstone,
)
    requires
        is_flushed(before, after, input, table, at),
        is_input_of(*input, before.immutable_memtables@[at], before.options@),
        table.records@ == memtable::records_of(input.point_records@),
        table.tombstones() == range_tombstone::tombstones_of(input.range_tombstones@),
    ensures
        after.has_record(record) <==> before.has_record(record),
        after.has_tombstone(tombstone) <==> before.has_tombstone(tombstone),
{
    let queue = before.immutable_memtables@;
    let rest = after.immutable_memtables@;
    let old_tables = before.current_version.tables@;
    let new_tables = after.current_version.tables@;
    let last = old_tables.len() as int;
    assert(new_tables[last] == table);
    if after.queued_record(record) {
        let i = choose|i: int| 0 <= i < rest.len() && (#[trigger] rest[i]).memtable@.contains(record);
        let k = if i < at {
            i
        } else {
            i + 1
        };
        assert(queue[k].memtable@.contains(record));
    }
    if before.queued_record(record) {
        let k = choose|k: int|
            0 <= k < queue.len() && (#[trigger] queue[k]).memtable@.contains(record);
        if k < at {
            assert(rest[k].memtable@.contains(record));
        } else if k > at {
            assert(rest[k - 1].memtable@.contains(record));
        } else {
            assert(new_tables[last].records@.contains(record));
        }
    }
    if after.current_version.has_record(record) {
        let i = choose|i: int|
            0 <= i < new_tables.len() && (#[trigger] new_tables[i]).records@.contains(record);
        if i < last {
            assert(old_tables[i].records@.contains(record));
        } else {
            assert(queue[at].memtable@.contains(record));
        }
    }
    if before.current_version.has_record(record) {
        let i = choose|i: int|
            0 <= i < last && (#[trigger] old_tables[i]).records@.contains(record);
        assert(new_tables[i].records@.contains(record));
    }
    if after.queued_tombstone(tombstone) {
        let i = choose|i: int|
            0 <= i < rest.len() && (#[trigger] rest[i]).tombstones().contains(tombstone);
        let k = if i < at {
            i
        } else {
            i + 1
        };
        assert(queue[k].tombstones().contains(tombstone));
    }
    if before.queued_tombstone(tombstone) {
        let k = choose|k: int|
            0 <= k < queue.len() && (#[trigger] queue[k]).tombstones().contains(tombstone);
        if k < at {
            assert(rest[k].tombstones().contains(tombstone));
        } else if k > at {
            assert(rest[k - 1].tombstones().contains(tombstone));
        } else {
            assert(new_tables[last].tombstones().contains(tombstone));
        }
    }
    if after.current_version.has_tombstone(tombstone) {
        let i = choose|i: int|
            0 <= i < new_tables.len() && (#[trigger] new_tables[i]).tombstones().contains(
                tombstone,
            );
        if i < last {
            assert(old_tables[i].tombstones().contains(tombstone));
        } else {
            assert(queue[at].tombstones().contains(tombstone));
        }
    }
    if before.current_version.has_tombstone(tombstone) {
        let i = choose|i: int|
            0 <= i < last && (#[trigger] old_tables[i]).tombstones().contains(tombstone);
        assert(new_tables[i].tombstones().contains(tombstone));
    }
}

proof fn split_mentions(records: Seq<Record>, tombstones: Seq<Tombstone>, sequence: Sequence)
    ensures
        mentions(records, tombstones, sequence) <==> mentions(records, Seq::empty(), sequence)
            || mentions(Seq::empty(), tombstones, sequence),
{
}

fn contains_id(ids: &Vec<u64>, id: u64) -> (found: bool)
    ensures
        found == ids@.contains(id),
{
    let mut i: usize = 0;
    while i < ids.len()
        invariant
            i <= ids@.len(),
            forall|j: int| 0 <= j < i ==> ids@[j] != id,
        decreases ids@.len() - i,
    {
        if ids[i] == id {
            return true;
        }
        i += 1;
    }
    false
}

} // verus!
