//! What reads find while a tree is written to.
use std::sync::Arc;
use vstd::prelude::*;

use crate::internal_key;
use crate::internal_key::{RecordKey, ValueKind};
use crate::lsm::delta;
use crate::lsm::flush;
use crate::lsm::flush::FlushInput;
use crate::lsm::read;
use crate::lsm::sources::InMemoryDelta;
use crate::lsm::tree;
use crate::lsm::tree::LsmTree;
use crate::memtable;
use crate::memtable::Record;
use crate::point_value::SourceView;
use crate::range_tombstone;
use crate::range_tombstone::Tombstone;
use crate::table::Table;
use crate::types::{RangeView, Sequence};
use crate::write_batch::{BatchOperation, Operation};

verus! {

/// Whether a read of a key finds the same in two trees.
pub open spec fn reads_alike(a: LsmTree, b: LsmTree, key: Seq<u8>, read_sequence: Sequence) -> bool {
    &&& forall|found: Option<SourceView>| #[trigger]
        a.finds(key, read_sequence, found) == b.finds(key, read_sequence, found)
    &&& a.breaks(key, read_sequence) == b.breaks(key, read_sequence)
}

/// Whether a read of a key works on the same records and range deletions in two trees.
pub open spec fn same_sources(
    a: LsmTree,
    b: LsmTree,
    key: Seq<u8>,
    read_sequence: Sequence,
) -> bool {
    &&& forall|record: Record|
        record.visible_to(key, read_sequence) ==> (#[trigger] a.read_records(
            read_sequence,
        ).contains(record) <==> b.read_records(read_sequence).contains(record))
    &&& forall|tombstone: Tombstone|
        tombstone.sequence.0 <= read_sequence.0 ==> (#[trigger] a.reads_tombstone(
            read_sequence,
            tombstone,
        ) <==> b.reads_tombstone(read_sequence, tombstone))
    &&& a.commits_whole(key, read_sequence) == b.commits_whole(key, read_sequence)
}

proof fn same_sources_decide_alike(
    a: LsmTree,
    b: LsmTree,
    key: Seq<u8>,
    read_sequence: Sequence,
    record: Record,
)
    requires
        same_sources(a, b, key, read_sequence),
    ensures
        a.decides(key, read_sequence, record) == b.decides(key, read_sequence, record),
        record.key.user_key == key ==> a.covers(record, read_sequence) == b.covers(
            record,
            read_sequence,
        ),
{
    let mine = a.read_records(read_sequence);
    let theirs = b.read_records(read_sequence);
    assert forall|other: Record| other.visible_to(key, read_sequence) implies (
    #[trigger] theirs.contains(other) <==> mine.contains(other)) by {
        assert(mine.contains(other) <==> theirs.contains(other));
    }
    if a.covers(record, read_sequence) {
        let t = choose|t: Tombstone|
            a.reads_tombstone(read_sequence, t) && #[trigger] t.covers(
                record.key.user_key,
                record.key.sequence,
                record.key.batch_index,
                read_sequence,
            );
        assert(b.reads_tombstone(read_sequence, t));
    }
    if b.covers(record, read_sequence) {
        let t = choose|t: Tombstone|
            b.reads_tombstone(read_sequence, t) && #[trigger] t.covers(
                record.key.user_key,
                record.key.sequence,
                record.key.batch_index,
                read_sequence,
            );
        assert(a.reads_tombstone(read_sequence, t));
    }
}

proof fn found_in_one_is_found_in_other(
    a: LsmTree,
    b: LsmTree,
    key: Seq<u8>,
    read_sequence: Sequence,
    found: Option<SourceView>,
)
    requires
        same_sources(a, b, key, read_sequence),
        a.finds(key, read_sequence, found),
    ensures
        b.finds(key, read_sequence, found),
{
    match found {
        Some(value) => {
            let record = choose|record: Record| #[trigger]
                a.decides(key, read_sequence, record) && record.key.kind == ValueKind::Put
                    && !a.covers(record, read_sequence) && read::value_of(record) == Some(value);
            same_sources_decide_alike(a, b, key, read_sequence, record);
            assert(b.decides(key, read_sequence, record));
        },
        None => {
            if forall|record: Record| #[trigger]
                a.read_records(read_sequence).contains(record) ==> !record.visible_to(
                    key,
                    read_sequence,
                ) {
                assert forall|record: Record| #[trigger]
                    b.read_records(read_sequence).contains(record) implies !record.visible_to(
                    key,
                    read_sequence,
                ) by {
                    if record.visible_to(key, read_sequence) {
                        assert(a.read_records(read_sequence).contains(record));
                    }
                }
            } else {
                let record = choose|record: Record| #[trigger]
                    a.decides(key, read_sequence, record) && (record.key.kind != ValueKind::Put
                        || a.covers(record, read_sequence));
                same_sources_decide_alike(a, b, key, read_sequence, record);
                assert(b.decides(key, read_sequence, record));
            }
        },
    }
}

proof fn broken_in_one_is_broken_in_other(
    a: LsmTree,
    b: LsmTree,
    key: Seq<u8>,
    read_sequence: Sequence,
)
    requires
        same_sources(a, b, key, read_sequence),
        a.breaks(key, read_sequence),
    ensures
        b.breaks(key, read_sequence),
{
    let record = choose|record: Record| #[trigger]
        a.decides(key, read_sequence, record) && record.key.kind == ValueKind::Put && !a.covers(
            record,
            read_sequence,
        ) && record.value is None;
    same_sources_decide_alike(a, b, key, read_sequence, record);
    assert(b.decides(key, read_sequence, record));
}

/// A read that works on the same records and range deletions finds the same.
pub proof fn same_sources_read_alike(
    a: LsmTree,
    b: LsmTree,
    key: Seq<u8>,
    read_sequence: Sequence,
)
    requires
        same_sources(a, b, key, read_sequence),
    ensures
        reads_alike(a, b, key, read_sequence),
{
    assert(same_sources(b, a, key, read_sequence)) by {
        assert forall|record: Record| record.visible_to(key, read_sequence) implies (
        #[trigger] b.read_records(read_sequence).contains(record) <==> a.read_records(
            read_sequence,
        ).contains(record)) by {
            assert(a.read_records(read_sequence).contains(record) <==> b.read_records(
                read_sequence,
            ).contains(record));
        }
        assert forall|tombstone: Tombstone| tombstone.sequence.0 <= read_sequence.0 implies (
        #[trigger] b.reads_tombstone(read_sequence, tombstone) <==> a.reads_tombstone(
            read_sequence,
            tombstone,
        )) by {
            assert(a.reads_tombstone(read_sequence, tombstone) <==> b.reads_tombstone(
                read_sequence,
                tombstone,
            ));
        }
    }
    assert forall|found: Option<SourceView>| #[trigger]
        a.finds(key, read_sequence, found) == b.finds(key, read_sequence, found) by {
        if a.finds(key, read_sequence, found) {
            found_in_one_is_found_in_other(a, b, key, read_sequence, found);
        }
        if b.finds(key, read_sequence, found) {
            found_in_one_is_found_in_other(b, a, key, read_sequence, found);
        }
    }
    if a.breaks(key, read_sequence) {
        broken_in_one_is_broken_in_other(a, b, key, read_sequence);
    }
    if b.breaks(key, read_sequence) {
        broken_in_one_is_broken_in_other(b, a, key, read_sequence);
    }
}

/// Whether a run holds each record of another that a read sees.
pub open spec fn holds_all(
    run: Seq<Record>,
    other: Seq<Record>,
    key: Seq<u8>,
    read_sequence: Sequence,
) -> bool {
    forall|record: Record| #[trigger]
        other.contains(record) && record.visible_to(key, read_sequence) ==> run.contains(record)
}

/// Whether each record of some runs that a read sees comes with a whole run of others.
pub open spec fn made_of(
    runs: Seq<Seq<Record>>,
    others: Seq<Seq<Record>>,
    key: Seq<u8>,
    read_sequence: Sequence,
) -> bool {
    forall|j: int, record: Record|
        0 <= j < runs.len() && #[trigger] runs[j].contains(record) && record.visible_to(
            key,
            read_sequence,
        ) ==> exists|i: int|
            0 <= i < others.len() && (#[trigger] others[i]).contains(record) && holds_all(
                runs[j],
                others[i],
                key,
                read_sequence,
            )
}

/// Runs that are made of whole runs split no commit that those do not split.
pub proof fn whole_runs_stay_whole(
    runs: Seq<Seq<Record>>,
    others: Seq<Seq<Record>>,
    key: Seq<u8>,
    read_sequence: Sequence,
)
    requires
        made_of(runs, others, key, read_sequence),
        read::whole_commits(others, key, read_sequence),
    ensures
        read::whole_commits(runs, key, read_sequence),
{
    assert forall|i: int, j: int, a: Record, b: Record|
        #![trigger runs[i].contains(a), runs[j].contains(b)]
        0 <= i < runs.len() && 0 <= j < runs.len() && runs[i].contains(a) && runs[j].contains(b)
            && a.visible_to(key, read_sequence) && b.visible_to(key, read_sequence)
            && a.key.sequence == b.key.sequence implies exists|c: Record| #[trigger]
        runs[i].contains(c) && c.key == b.key by {
        let p = choose|p: int|
            0 <= p < others.len() && (#[trigger] others[p]).contains(a) && holds_all(
                runs[i],
                others[p],
                key,
                read_sequence,
            );
        let q = choose|q: int|
            0 <= q < others.len() && (#[trigger] others[q]).contains(b) && holds_all(
                runs[j],
                others[q],
                key,
                read_sequence,
            );
        let c = read::commit_is_whole(others, key, read_sequence, p, q, a, b);
        assert(runs[i].contains(c));
    }
    read::commits_are_whole(runs, key, read_sequence);
}

/// The in-memory sources that a read of a key visits, in a tree and in one that differs only in
/// its active memtable.
proof fn active_run_is_first(before: LsmTree, after: LsmTree, key: Seq<u8>, read_sequence: Sequence)
    requires
        tree::same_but_active(before, after),
    ensures
        after.key_runs(key, read_sequence).len() == before.key_runs(key, read_sequence).len(),
        after.key_runs(key, read_sequence)[0] == after.active_memtable@,
        before.key_runs(key, read_sequence)[0] == before.active_memtable@,
        forall|i: int|
            0 < i < before.key_runs(key, read_sequence).len() ==> #[trigger] after.key_runs(
                key,
                read_sequence,
            )[i] == before.key_runs(key, read_sequence)[i],
{
}

proof fn unseen_record_splits_nothing(
    before: LsmTree,
    after: LsmTree,
    key: Seq<u8>,
    read_sequence: Sequence,
)
    requires
        tree::same_but_active(before, after),
        forall|record: Record|
            record.visible_to(key, read_sequence) ==> (
            #[trigger] after.active_memtable@.contains(record)
                <==> before.active_memtable@.contains(record)),
    ensures
        after.commits_whole(key, read_sequence) == before.commits_whole(key, read_sequence),
{
    active_run_is_first(before, after, key, read_sequence);
    let old_runs = before.key_runs(key, read_sequence);
    let new_runs = after.key_runs(key, read_sequence);
    assert forall|j: int, record: Record|
        0 <= j < new_runs.len() && #[trigger] new_runs[j].contains(record) && record.visible_to(
            key,
            read_sequence,
        ) implies exists|i: int|
        0 <= i < old_runs.len() && (#[trigger] old_runs[i]).contains(record) && holds_all(
            new_runs[j],
            old_runs[i],
            key,
            read_sequence,
        ) by {
        assert(old_runs[j].contains(record));
        assert(holds_all(new_runs[j], old_runs[j], key, read_sequence));
    }
    assert forall|j: int, record: Record|
        0 <= j < old_runs.len() && #[trigger] old_runs[j].contains(record) && record.visible_to(
            key,
            read_sequence,
        ) implies exists|i: int|
        0 <= i < new_runs.len() && (#[trigger] new_runs[i]).contains(record) && holds_all(
            old_runs[j],
            new_runs[i],
            key,
            read_sequence,
        ) by {
        assert(new_runs[j].contains(record));
        assert(holds_all(old_runs[j], new_runs[j], key, read_sequence));
    }
    if before.commits_whole(key, read_sequence) {
        whole_runs_stay_whole(new_runs, old_runs, key, read_sequence);
    }
    if after.commits_whole(key, read_sequence) {
        whole_runs_stay_whole(old_runs, new_runs, key, read_sequence);
    }
}

/// Reads at an earlier commit are repeatable: a later operation changes nothing that they find.
pub proof fn later_write_is_not_seen(
    before: LsmTree,
    after: LsmTree,
    operation: Operation,
    sequence: Sequence,
    batch_index: u32,
    key: Seq<u8>,
    read_sequence: Sequence,
)
    requires
        tree::applied(before, after, operation, sequence, batch_index),
        read_sequence.0 < sequence.0,
    ensures
        reads_alike(before, after, key, read_sequence),
{
    unseen_record_splits_nothing(before, after, key, read_sequence);
    assert forall|tombstone: Tombstone| tombstone.sequence.0 <= read_sequence.0 implies (
    #[trigger] before.reads_tombstone(read_sequence, tombstone) <==> after.reads_tombstone(
        read_sequence,
        tombstone,
    )) by {
        pushed_tombstone(before, after, operation, sequence, batch_index, tombstone);
    }
    same_sources_read_alike(before, after, key, read_sequence);
}

/// An operation adds the range deletion that it writes, and no other.
pub proof fn pushed_tombstone(
    before: LsmTree,
    after: LsmTree,
    operation: Operation,
    sequence: Sequence,
    batch_index: u32,
    tombstone: Tombstone,
)
    requires
        tree::applied(before, after, operation, sequence, batch_index),
    ensures
        after.tombstones().contains(tombstone) <==> before.tombstones().contains(tombstone)
            || operation.tombstone(sequence, batch_index) == Some(tombstone),
{
    match operation.record(sequence, batch_index) {
        Some(_) => {},
        None => {
            let older = before.tombstones();
            let added = operation.tombstone(sequence, batch_index)->0;
            if older.contains(tombstone) {
                let i = choose|i: int| 0 <= i < older.len() && older[i] == tombstone;
                assert(older.push(added)[i] == tombstone);
            }
            assert(older.push(added)[older.len() as int] == added);
        },
    }
}

/// A point operation changes nothing that reads of other keys find.
pub proof fn write_leaves_other_keys(
    before: LsmTree,
    after: LsmTree,
    operation: Operation,
    sequence: Sequence,
    batch_index: u32,
    key: Seq<u8>,
    read_sequence: Sequence,
)
    requires
        tree::applied(before, after, operation, sequence, batch_index),
        operation.record(sequence, batch_index) matches Some(record) && record.key.user_key != key,
    ensures
        reads_alike(before, after, key, read_sequence),
{
    unseen_record_splits_nothing(before, after, key, read_sequence);
    same_sources_read_alike(before, after, key, read_sequence);
}

/// Whether a commit is later than every one that a read of a key sees.
pub open spec fn is_latest(
    tree: LsmTree,
    key: Seq<u8>,
    read_sequence: Sequence,
    sequence: Sequence,
) -> bool {
    &&& sequence.0 <= read_sequence.0
    &&& forall|record: Record| #[trigger]
        tree.read_records(read_sequence).contains(record) && record.visible_to(key, read_sequence)
            ==> record.key.sequence.0 < sequence.0
}

proof fn latest_record_decides(
    before: LsmTree,
    after: LsmTree,
    operation: Operation,
    sequence: Sequence,
    batch_index: u32,
    added: Record,
    read_sequence: Sequence,
)
    requires
        tree::applied(before, after, operation, sequence, batch_index),
        operation.record(sequence, batch_index) == Some(added),
        added.key.sequence == sequence,
        is_latest(before, added.key.user_key, read_sequence, sequence),
    ensures
        forall|record: Record| #[trigger]
            after.decides(added.key.user_key, read_sequence, record) <==> record == added,
{
    internal_key::record_order_facts();
    let key = added.key.user_key;
    let all = after.read_records(read_sequence);
    assert(after.active_memtable@.contains(added));
    assert(all.contains(added));
    assert forall|other: Record| #[trigger]
        all.contains(other) && other.visible_to(key, read_sequence) implies other == added || (
    before.read_records(read_sequence).contains(other) && other.key.sequence.0
        < sequence.0) by {
        if other != added {
            assert(before.read_records(read_sequence).contains(other));
        }
    }
    assert forall|record: Record| #[trigger]
        after.decides(key, read_sequence, record) <==> record == added by {
        if after.decides(key, read_sequence, record) {
            assert(read::settled(added.key, record.key, after.commits_whole(key, read_sequence)));
        }
    }
}

/// A value that was put by the latest commit is what reads find.
pub proof fn put_value_is_read(
    before: LsmTree,
    after: LsmTree,
    key: Seq<u8>,
    value: Seq<u8>,
    sequence: Sequence,
    batch_index: u32,
    read_sequence: Sequence,
)
    requires
        tree::applied(before, after, Operation::Put(key, value), sequence, batch_index),
        is_latest(before, key, read_sequence, sequence),
        forall|tombstone: Tombstone| #[trigger]
            before.reads_tombstone(read_sequence, tombstone) ==> !tombstone.covers(
                key,
                sequence,
                batch_index,
                read_sequence,
            ),
    ensures
        forall|found: Option<SourceView>| #[trigger]
            after.finds(key, read_sequence, found) <==> found == Some(SourceView::Value(value)),
        !after.breaks(key, read_sequence),
{
    let operation = Operation::Put(key, value);
    let added = operation.record(sequence, batch_index)->0;
    latest_record_decides(
        before,
        after,
        operation,
        sequence,
        batch_index,
        added,
        read_sequence,
    );
    assert(after.decides(key, read_sequence, added));
    assert(!after.covers(added, read_sequence)) by {
        if after.covers(added, read_sequence) {
            let t = choose|t: Tombstone|
                after.reads_tombstone(read_sequence, t) && #[trigger] t.covers(
                    added.key.user_key,
                    added.key.sequence,
                    added.key.batch_index,
                    read_sequence,
                );
            assert(before.reads_tombstone(read_sequence, t));
        }
    }
    assert(read::value_of(added) == Some(SourceView::Value(value)));
    assert(after.read_records(read_sequence).contains(added));
    assert(added.visible_to(key, read_sequence));
}

/// A key that was deleted by the latest commit is not found.
pub proof fn deleted_key_is_not_read(
    before: LsmTree,
    after: LsmTree,
    key: Seq<u8>,
    sequence: Sequence,
    batch_index: u32,
    read_sequence: Sequence,
)
    requires
        tree::applied(before, after, Operation::Delete(key), sequence, batch_index),
        is_latest(before, key, read_sequence, sequence),
    ensures
        forall|found: Option<SourceView>| #[trigger]
            after.finds(key, read_sequence, found) <==> found is None,
        !after.breaks(key, read_sequence),
{
    let operation = Operation::Delete(key);
    let added = operation.record(sequence, batch_index)->0;
    latest_record_decides(
        before,
        after,
        operation,
        sequence,
        batch_index,
        added,
        read_sequence,
    );
    assert(after.decides(key, read_sequence, added));
}

/// A key in a range that was deleted by the latest commit is not found.
pub proof fn deleted_range_is_not_read(
    before: LsmTree,
    after: LsmTree,
    range: RangeView,
    sequence: Sequence,
    batch_index: u32,
    key: Seq<u8>,
    read_sequence: Sequence,
)
    requires
        tree::applied(before, after, Operation::DeleteRange(range), sequence, batch_index),
        is_latest(before, key, read_sequence, sequence),
        range.contains(key),
    ensures
        forall|found: Option<SourceView>| #[trigger]
            after.finds(key, read_sequence, found) ==> found is None,
        !after.breaks(key, read_sequence),
{
    let operation = Operation::DeleteRange(range);
    let added = operation.tombstone(sequence, batch_index)->0;
    pushed_tombstone(before, after, operation, sequence, batch_index, added);
    assert(after.reads_tombstone(read_sequence, added));
    assert forall|record: Record| #[trigger]
        after.decides(key, read_sequence, record) implies after.covers(record, read_sequence) by {
        assert(before.read_records(read_sequence).contains(record));
        assert(added.covers(
            record.key.user_key,
            record.key.sequence,
            record.key.batch_index,
            read_sequence,
        ));
    }
}

/// Queuing the active memtable changes nothing that a read finds.
pub proof fn freeze_is_not_seen(
    before: LsmTree,
    after: LsmTree,
    sequence: Sequence,
    key: Seq<u8>,
    read_sequence: Sequence,
)
    requires
        tree::is_frozen(before, after, sequence),
    ensures
        reads_alike(before, after, key, read_sequence),
{
    assert forall|record: Record| #[trigger]
        before.read_records(read_sequence).contains(record) <==> after.read_records(
            read_sequence,
        ).contains(record) by {
        tree::freeze_keeps_contents(before, after, sequence, record, arbitrary());
    }
    assert forall|tombstone: Tombstone| #[trigger]
        before.reads_tombstone(read_sequence, tombstone) <==> after.reads_tombstone(
            read_sequence,
            tombstone,
        ) by {
        tree::freeze_keeps_contents(before, after, sequence, arbitrary(), tombstone);
    }
    let old_runs = before.key_runs(key, read_sequence);
    let new_runs = after.key_runs(key, read_sequence);
    let queued = before.immutable_memtables@.len() as int;
    assert(new_runs.len() == old_runs.len() + 1);
    assert(new_runs[queued + 1] == before.active_memtable@);
    assert forall|i: int| 0 < i <= queued implies new_runs[i] == #[trigger] old_runs[i] by {
        assert(after.immutable_memtables@.drop_last()[i - 1] == before.immutable_memtables@[i - 1]);
    }
    assert forall|i: int| queued < i < old_runs.len() implies new_runs[i + 1]
        == #[trigger] old_runs[i] by {}
    assert(made_of(new_runs, old_runs, key, read_sequence)) by {
        assert forall|j: int, record: Record|
            0 <= j < new_runs.len() && #[trigger] new_runs[j].contains(record)
                && record.visible_to(key, read_sequence) implies exists|i: int|
            0 <= i < old_runs.len() && (#[trigger] old_runs[i]).contains(record) && holds_all(
                new_runs[j],
                old_runs[i],
                key,
                read_sequence,
            ) by {
            assert(j != 0);
            let i = if j <= queued {
                j
            } else if j == queued + 1 {
                0
            } else {
                j - 1
            };
            assert(old_runs[i] == new_runs[j]);
            assert(old_runs[i].contains(record));
        }
    }
    assert(made_of(old_runs, new_runs, key, read_sequence)) by {
        assert forall|j: int, record: Record|
            0 <= j < old_runs.len() && #[trigger] old_runs[j].contains(record)
                && record.visible_to(key, read_sequence) implies exists|i: int|
            0 <= i < new_runs.len() && (#[trigger] new_runs[i]).contains(record) && holds_all(
                old_runs[j],
                new_runs[i],
                key,
                read_sequence,
            ) by {
            let i = if j == 0 {
                queued + 1
            } else if j <= queued {
                j
            } else {
                j + 1
            };
            assert(new_runs[i] == old_runs[j]);
            assert(new_runs[i].contains(record));
        }
    }
    if before.commits_whole(key, read_sequence) {
        whole_runs_stay_whole(new_runs, old_runs, key, read_sequence);
    }
    if after.commits_whole(key, read_sequence) {
        whole_runs_stay_whole(old_runs, new_runs, key, read_sequence);
    }
    same_sources_read_alike(before, after, key, read_sequence);
}

/// A flush changes nothing that a read finds, where the table holds what the memtable held and
/// no source splits a commit.
pub proof fn flush_is_not_seen(
    before: LsmTree,
    after: LsmTree,
    input: &FlushInput,
    table: Arc<Table>,
    at: int,
    key: Seq<u8>,
    read_sequence: Sequence,
)
    requires
        flush::is_flushed(before, after, input, table, at),
        flush::is_input_of(*input, before.immutable_memtables@[at], before.options@),
        table.records@ == memtable::records_of(input.point_records@),
        table.tombstones() == range_tombstone::tombstones_of(input.range_tombstones@),
        before.commits_whole(key, read_sequence),
    ensures
        reads_alike(before, after, key, read_sequence),
        after.commits_whole(key, read_sequence),
{
    assert forall|record: Record| #[trigger]
        before.read_records(read_sequence).contains(record) <==> after.read_records(
            read_sequence,
        ).contains(record) by {
        flush::flush_keeps_contents(before, after, input, table, at, record, arbitrary());
    }
    assert forall|tombstone: Tombstone| #[trigger]
        before.reads_tombstone(read_sequence, tombstone) <==> after.reads_tombstone(
            read_sequence,
            tombstone,
        ) by {
        flush::flush_keeps_contents(before, after, input, table, at, arbitrary(), tombstone);
    }
    let old_runs = before.key_runs(key, read_sequence);
    let new_runs = after.key_runs(key, read_sequence);
    assert(new_runs.len() == old_runs.len() - 1);
    assert forall|j: int, record: Record|
        0 <= j < new_runs.len() && #[trigger] new_runs[j].contains(record) && record.visible_to(
            key,
            read_sequence,
        ) implies exists|i: int|
        0 <= i < old_runs.len() && (#[trigger] old_runs[i]).contains(record) && holds_all(
            new_runs[j],
            old_runs[i],
            key,
            read_sequence,
        ) by {
        let i = if j <= at {
            j
        } else {
            j + 1
        };
        assert(old_runs[i] == new_runs[j]);
        assert(old_runs[i].contains(record));
    }
    whole_runs_stay_whole(new_runs, old_runs, key, read_sequence);
    same_sources_read_alike(before, after, key, read_sequence);
}

/// Whether `after` is `before` with a commit published to the deltas.
pub open spec fn published(
    before: LsmTree,
    after: LsmTree,
    operations: Seq<(BatchOperation, u32)>,
    sequence: Sequence,
    max_epoch_bytes: u64,
) -> bool {
    &&& before.wf()
    &&& after.wf()
    &&& tree::same_but_deltas(before, after)
    &&& delta::set_published(
        before.delta_shards,
        after.delta_shards,
        operations,
        sequence,
        max_epoch_bytes,
    )
}

/// Whether the deltas that hold a key are of commits before `sequence`, each record in one.
pub open spec fn deltas_precede(tree: LsmTree, key: Seq<u8>, sequence: Sequence) -> bool {
    delta::holds_earlier(tree.delta_shards.shards@[delta::shard_of(key)], sequence)
}

proof fn published_sources(
    before: LsmTree,
    after: LsmTree,
    operations: Seq<(BatchOperation, u32)>,
    sequence: Sequence,
    max_epoch_bytes: u64,
    record: Record,
    tombstone: Tombstone,
)
    requires
        published(before, after, operations, sequence, max_epoch_bytes),
        deltas_precede(before, record.key.user_key, sequence),
    ensures
        after.delta_shards.has_record(record) <==> before.delta_shards.has_record(record)
            || delta::written_records(
            operations,
            sequence,
            delta::shard_of(record.key.user_key),
        ).contains(record),
        after.delta_shards.has_tombstone(tombstone) <==> before.delta_shards.has_tombstone(
            tombstone,
        ) || delta::written_tombstones(operations, sequence).contains(tombstone),
{
    let key = record.key.user_key;
    let own = delta::shard_of(key);
    let old_shard = before.delta_shards.shards@[own];
    let new_shard = after.delta_shards.shards@[own];
    delta::own_shard_is_complete(before.delta_shards, key, record, tombstone);
    delta::own_shard_is_complete(after.delta_shards, key, record, tombstone);
    delta::later_publish_keeps_records(
        old_shard,
        new_shard,
        operations,
        sequence,
        own,
        max_epoch_bytes,
        record,
    );
    delta::step_adds_tombstones(
        old_shard,
        new_shard,
        operations,
        sequence,
        own,
        max_epoch_bytes,
        tombstone,
    );
}

/// A run of a commit that no other run holds splits no commit.
proof fn later_run_splits_nothing(
    runs: Seq<Seq<Record>>,
    added: Seq<Record>,
    key: Seq<u8>,
    read_sequence: Sequence,
    sequence: Sequence,
)
    requires
        read::whole_commits(runs, key, read_sequence),
        forall|record: Record| #[trigger]
            added.contains(record) ==> record.key.sequence == sequence,
        forall|i: int, record: Record|
            0 <= i < runs.len() && #[trigger] runs[i].contains(record) && record.visible_to(
                key,
                read_sequence,
            ) ==> record.key.sequence != sequence,
    ensures
        read::whole_commits(runs.push(added), key, read_sequence),
{
    let all = runs.push(added);
    assert forall|i: int, j: int, a: Record, b: Record|
        #![trigger all[i].contains(a), all[j].contains(b)]
        0 <= i < all.len() && 0 <= j < all.len() && all[i].contains(a) && all[j].contains(b)
            && a.visible_to(key, read_sequence) && b.visible_to(key, read_sequence)
            && a.key.sequence == b.key.sequence implies exists|c: Record| #[trigger]
        all[i].contains(c) && c.key == b.key by {
        if i < runs.len() {
            assert(runs[i].contains(a));
        }
        if j < runs.len() {
            assert(runs[j].contains(b));
        }
        if i < runs.len() && j < runs.len() {
            let c = read::commit_is_whole(runs, key, read_sequence, i, j, a, b);
            assert(all[i].contains(c));
        } else {
            assert(i == j);
            assert(all[i].contains(b));
        }
    }
    read::commits_are_whole(all, key, read_sequence);
}

proof fn publish_splits_nothing(
    before: LsmTree,
    after: LsmTree,
    operations: Seq<(BatchOperation, u32)>,
    sequence: Sequence,
    max_epoch_bytes: u64,
    key: Seq<u8>,
    read_sequence: Sequence,
)
    requires
        published(before, after, operations, sequence, max_epoch_bytes),
        deltas_precede(before, key, sequence),
        before.commits_whole(key, read_sequence),
        forall|i: int, record: Record|
            0 <= i < before.key_runs(key, read_sequence).len() && #[trigger] before.key_runs(
                key,
                read_sequence,
            )[i].contains(record) && record.visible_to(key, read_sequence)
                ==> record.key.sequence != sequence,
    ensures
        after.commits_whole(key, read_sequence),
{
    let own = delta::shard_of(key);
    let old_shard = before.delta_shards.shards@[own];
    let new_shard = after.delta_shards.shards@[own];
    let old_runs = before.key_runs(key, read_sequence);
    let new_runs = after.key_runs(key, read_sequence);
    if before.mirror_covers(read_sequence) || !delta::writes(operations, sequence, own) {
        assert(new_runs =~= old_runs);
    } else {
        let added = choose|added: Arc<InMemoryDelta>|
            delta::is_written_delta(*added, operations, sequence, own)
                && #[trigger] delta::shard_published(old_shard, new_shard, added, max_epoch_bytes);
        let older = old_shard.open_epoch.deltas@;
        let pushed = older.push(added);
        delta::later_delta_is_apart(old_shard, added, operations, sequence, own);
        later_run_splits_nothing(old_runs, added.memtable@, key, read_sequence, sequence);
        let runs = old_runs.push(added.memtable@);
        let memtables = 1 + before.immutable_memtables@.len() as int;
        if new_shard.open_epoch.deltas@ == pushed {
            assert(new_runs =~= runs);
        } else {
            let merged = new_shard.open_epoch.deltas@[0];
            assert forall|j: int, record: Record|
                0 <= j < new_runs.len() && #[trigger] new_runs[j].contains(record)
                    && record.visible_to(key, read_sequence) implies exists|i: int|
                0 <= i < runs.len() && (#[trigger] runs[i]).contains(record) && holds_all(
                    new_runs[j],
                    runs[i],
                    key,
                    read_sequence,
                ) by {
                if j < memtables {
                    assert(runs[j] == new_runs[j]);
                    assert(runs[j].contains(record));
                } else {
                    assert(new_runs[j] == merged.memtable@);
                    delta::merge_keeps_every_record(pushed, merged, record);
                    let d = choose|d: int|
                        0 <= d < pushed.len() && (#[trigger] pushed[d]).memtable@.contains(record);
                    assert(runs[memtables + d] == pushed[d].memtable@);
                    assert(runs[memtables + d].contains(record));
                    assert forall|other: Record| #[trigger]
                        runs[memtables + d].contains(other) && other.visible_to(
                            key,
                            read_sequence,
                        ) implies new_runs[j].contains(other) by {
                        assert(pushed[d].memtable@.contains(other));
                        delta::merge_keeps_every_record(pushed, merged, other);
                    }
                }
            }
            whole_runs_stay_whole(new_runs, runs, key, read_sequence);
        }
    }
}

/// Reads at an earlier commit are repeatable: a later commit that is published changes nothing
/// that they find, where no source splits a commit.
pub proof fn later_commit_is_not_seen(
    before: LsmTree,
    after: LsmTree,
    operations: Seq<(BatchOperation, u32)>,
    sequence: Sequence,
    max_epoch_bytes: u64,
    key: Seq<u8>,
    read_sequence: Sequence,
)
    requires
        published(before, after, operations, sequence, max_epoch_bytes),
        deltas_precede(before, key, sequence),
        before.commits_whole(key, read_sequence),
        read_sequence.0 < sequence.0,
    ensures
        reads_alike(before, after, key, read_sequence),
        after.commits_whole(key, read_sequence),
{
    publish_splits_nothing(
        before,
        after,
        operations,
        sequence,
        max_epoch_bytes,
        key,
        read_sequence,
    );
    assert forall|record: Record| record.visible_to(key, read_sequence) implies (
    #[trigger] before.read_records(read_sequence).contains(record) <==> after.read_records(
        read_sequence,
    ).contains(record)) by {
        published_sources(
            before,
            after,
            operations,
            sequence,
            max_epoch_bytes,
            record,
            arbitrary(),
        );
        let own = delta::shard_of(key);
        if delta::written_records(operations, sequence, own).contains(record) {
            delta::written_at_sequence(operations, sequence, own, record);
        }
    }
    let witness = Record { key: RecordKey { user_key: key, ..arbitrary() }, ..arbitrary() };
    assert forall|tombstone: Tombstone| tombstone.sequence.0 <= read_sequence.0 implies (
    #[trigger] before.reads_tombstone(read_sequence, tombstone) <==> after.reads_tombstone(
        read_sequence,
        tombstone,
    )) by {
        published_sources(
            before,
            after,
            operations,
            sequence,
            max_epoch_bytes,
            witness,
            tombstone,
        );
        delta::written_tombstones_are_operations(operations, sequence, tombstone);
    }
    same_sources_read_alike(before, after, key, read_sequence);
}

/// Whether the operation at `at` is the last of its key in a commit.
pub open spec fn is_last_of_key(
    operations: Seq<(BatchOperation, u32)>,
    at: int,
    key: Seq<u8>,
) -> bool {
    &&& 0 <= at < operations.len()
    &&& forall|i: int|
        #![trigger operations[i]]
        0 <= i < operations.len() && i != at ==> match operations[i].0@ {
            Operation::Put(other, _) | Operation::Delete(other) => other != key || operations[i].1
                < operations[at].1,
            Operation::DeleteRange(range) => !range.contains(key) || operations[i].1
                <= operations[at].1,
        }
}

/// Whether every range deletion that a read sees is earlier than a commit.
pub open spec fn deletions_precede(
    tree: LsmTree,
    read_sequence: Sequence,
    sequence: Sequence,
) -> bool {
    forall|tombstone: Tombstone| #[trigger]
        tree.reads_tombstone(read_sequence, tombstone) ==> tombstone.sequence.0 < sequence.0
            || tombstone.sequence.0 > read_sequence.0
}

proof fn key_run_is_read(
    tree: LsmTree,
    key: Seq<u8>,
    read_sequence: Sequence,
    i: int,
    record: Record,
)
    requires
        tree.wf(),
        0 <= i < tree.key_runs(key, read_sequence).len(),
        tree.key_runs(key, read_sequence)[i].contains(record),
    ensures
        tree.read_records(read_sequence).contains(record),
{
    let queued = tree.immutable_memtables@.len() as int;
    if 0 < i <= queued {
        assert(tree.immutable_memtables@[i - 1].memtable@.contains(record));
        assert(tree.has_record(record));
    } else if i > queued {
        let own = delta::shard_of(key);
        assert(tree.delta_shards.shards@[own].open_epoch.deltas@[i - 1 - queued].memtable@.contains(
            record,
        ));
        assert(tree.delta_shards.shards@[own].has_record(record));
    }
}

proof fn last_operation_decides(
    before: LsmTree,
    after: LsmTree,
    operations: Seq<(BatchOperation, u32)>,
    sequence: Sequence,
    max_epoch_bytes: u64,
    at: int,
    added: Record,
    read_sequence: Sequence,
)
    requires
        published(before, after, operations, sequence, max_epoch_bytes),
        deltas_precede(before, added.key.user_key, sequence),
        before.commits_whole(added.key.user_key, read_sequence),
        is_latest(before, added.key.user_key, read_sequence, sequence),
        deletions_precede(before, read_sequence, sequence),
        before.delta_mirror_sequence < sequence.0,
        is_last_of_key(operations, at, added.key.user_key),
        operations[at].0@.record(sequence, operations[at].1) == Some(added),
    ensures
        forall|record: Record| #[trigger]
            after.decides(added.key.user_key, read_sequence, record) <==> record == added,
        !after.covers(added, read_sequence),
        after.read_records(read_sequence).contains(added),
{
    internal_key::record_order_facts();
    let key = added.key.user_key;
    let own = delta::shard_of(key);
    let old_runs = before.key_runs(key, read_sequence);
    assert forall|i: int, record: Record|
        0 <= i < old_runs.len() && #[trigger] old_runs[i].contains(record) && record.visible_to(
            key,
            read_sequence,
        ) implies record.key.sequence != sequence by {
        key_run_is_read(before, key, read_sequence, i, record);
    }
    publish_splits_nothing(
        before,
        after,
        operations,
        sequence,
        max_epoch_bytes,
        key,
        read_sequence,
    );
    assert(delta::stands(operations, sequence, at));
    delta::standing_operation_is_written(operations, sequence, at, added);
    published_sources(
        before,
        after,
        operations,
        sequence,
        max_epoch_bytes,
        added,
        arbitrary(),
    );
    let all = after.read_records(read_sequence);
    assert(all.contains(added));
    assert forall|other: Record| #[trigger]
        all.contains(other) && other.visible_to(key, read_sequence) && other
            != added implies added.key.lt(other.key) && !other.key.lt(added.key) by {
        published_sources(
            before,
            after,
            operations,
            sequence,
            max_epoch_bytes,
            other,
            arbitrary(),
        );
        if before.read_records(read_sequence).contains(other) {
            assert(other.key.sequence.0 < sequence.0);
        } else {
            delta::written_at_sequence(operations, sequence, own, other);
            let i = delta::written_comes_from_operation(operations, sequence, own, other);
            assert(operations[i].0@.record(sequence, operations[i].1) == Some(other));
            assert(other.key.batch_index < added.key.batch_index);
        }
    }
    assert forall|record: Record| #[trigger]
        after.decides(key, read_sequence, record) <==> record == added by {
        if after.decides(key, read_sequence, record) {
            assert(read::settled(added.key, record.key, true));
        }
    }
    if after.covers(added, read_sequence) {
        let t = choose|t: Tombstone|
            after.reads_tombstone(read_sequence, t) && #[trigger] t.covers(
                added.key.user_key,
                added.key.sequence,
                added.key.batch_index,
                read_sequence,
            );
        published_sources(before, after, operations, sequence, max_epoch_bytes, added, t);
        delta::written_tombstones_are_operations(operations, sequence, t);
        assert(!before.reads_tombstone(read_sequence, t));
    }
}

/// A value that the latest commit puts is what reads find, where no later operation of that
/// commit deletes it.
pub proof fn published_value_is_read(
    before: LsmTree,
    after: LsmTree,
    operations: Seq<(BatchOperation, u32)>,
    sequence: Sequence,
    max_epoch_bytes: u64,
    at: int,
    key: Seq<u8>,
    value: Seq<u8>,
    read_sequence: Sequence,
)
    requires
        published(before, after, operations, sequence, max_epoch_bytes),
        deltas_precede(before, key, sequence),
        before.commits_whole(key, read_sequence),
        is_latest(before, key, read_sequence, sequence),
        deletions_precede(before, read_sequence, sequence),
        before.delta_mirror_sequence < sequence.0,
        is_last_of_key(operations, at, key),
        operations[at].0@ == Operation::Put(key, value),
    ensures
        forall|found: Option<SourceView>| #[trigger]
            after.finds(key, read_sequence, found) <==> found == Some(SourceView::Value(value)),
        !after.breaks(key, read_sequence),
{
    let added = operations[at].0@.record(sequence, operations[at].1)->0;
    last_operation_decides(
        before,
        after,
        operations,
        sequence,
        max_epoch_bytes,
        at,
        added,
        read_sequence,
    );
    assert(after.decides(key, read_sequence, added));
    assert(read::value_of(added) == Some(SourceView::Value(value)));
    assert(added.visible_to(key, read_sequence));
}

/// A key that the latest commit deletes is not found, where no later operation of that commit
/// puts it.
pub proof fn published_deletion_is_read(
    before: LsmTree,
    after: LsmTree,
    operations: Seq<(BatchOperation, u32)>,
    sequence: Sequence,
    max_epoch_bytes: u64,
    at: int,
    key: Seq<u8>,
    read_sequence: Sequence,
)
    requires
        published(before, after, operations, sequence, max_epoch_bytes),
        deltas_precede(before, key, sequence),
        before.commits_whole(key, read_sequence),
        is_latest(before, key, read_sequence, sequence),
        deletions_precede(before, read_sequence, sequence),
        before.delta_mirror_sequence < sequence.0,
        is_last_of_key(operations, at, key),
        operations[at].0@ == Operation::Delete(key),
    ensures
        forall|found: Option<SourceView>| #[trigger]
            after.finds(key, read_sequence, found) <==> found is None,
        !after.breaks(key, read_sequence),
{
    let added = operations[at].0@.record(sequence, operations[at].1)->0;
    last_operation_decides(
        before,
        after,
        operations,
        sequence,
        max_epoch_bytes,
        at,
        added,
        read_sequence,
    );
    assert(after.decides(key, read_sequence, added));
}

/// A key in a range that the latest commit deletes is not found, where no later operation of
/// that commit puts it.
pub proof fn published_range_deletion_is_read(
    before: LsmTree,
    after: LsmTree,
    operations: Seq<(BatchOperation, u32)>,
    sequence: Sequence,
    max_epoch_bytes: u64,
    at: int,
    range: RangeView,
    key: Seq<u8>,
    read_sequence: Sequence,
)
    requires
        published(before, after, operations, sequence, max_epoch_bytes),
        deltas_precede(before, key, sequence),
        is_latest(before, key, read_sequence, sequence),
        before.delta_mirror_sequence < sequence.0,
        is_last_of_key(operations, at, key),
        operations[at].0@ == Operation::DeleteRange(range),
        range.contains(key),
    ensures
        forall|found: Option<SourceView>| #[trigger]
            after.finds(key, read_sequence, found) ==> found is None,
        !after.breaks(key, read_sequence),
{
    let own = delta::shard_of(key);
    let added = operations[at].0@.tombstone(sequence, operations[at].1)->0;
    delta::written_tombstones_are_operations(operations, sequence, added);
    let witness = Record { key: RecordKey { user_key: key, ..arbitrary() }, ..arbitrary() };
    published_sources(before, after, operations, sequence, max_epoch_bytes, witness, added);
    assert(after.reads_tombstone(read_sequence, added));
    assert forall|record: Record| #[trigger]
        after.decides(key, read_sequence, record) implies after.covers(record, read_sequence) by {
        published_sources(before, after, operations, sequence, max_epoch_bytes, record, added);
        if before.read_records(read_sequence).contains(record) {
            assert(record.key.sequence.0 < sequence.0);
        } else {
            delta::written_at_sequence(operations, sequence, own, record);
            let i = delta::written_comes_from_operation(operations, sequence, own, record);
            assert(operations[i].0@.record(sequence, operations[i].1) == Some(record));
        }
        assert(added.covers(
            record.key.user_key,
            record.key.sequence,
            record.key.batch_index,
            read_sequence,
        ));
    }
}

/// Passing from the deltas to the memtables changes nothing that a read finds, where the
/// memtables hold what the deltas held and no source splits a commit.
pub proof fn mirror_is_not_seen(
    before: LsmTree,
    after: LsmTree,
    key: Seq<u8>,
    read_sequence: Sequence,
)
    requires
        tree::same_but_mirror(before, after),
        before.delta_mirror_sequence <= after.delta_mirror_sequence,
        forall|record: Record| #[trigger]
            before.delta_shards.has_record(record) && record.key.sequence.0
                <= after.delta_mirror_sequence ==> before.has_record(record),
        forall|tombstone: Tombstone| #[trigger]
            before.delta_shards.has_tombstone(tombstone) && tombstone.sequence.0
                <= after.delta_mirror_sequence ==> before.has_tombstone(tombstone),
        before.commits_whole(key, read_sequence),
    ensures
        reads_alike(before, after, key, read_sequence),
        after.commits_whole(key, read_sequence),
{
    let old_runs = before.key_runs(key, read_sequence);
    let new_runs = after.key_runs(key, read_sequence);
    assert forall|j: int, record: Record|
        0 <= j < new_runs.len() && #[trigger] new_runs[j].contains(record) && record.visible_to(
            key,
            read_sequence,
        ) implies exists|i: int|
        0 <= i < old_runs.len() && (#[trigger] old_runs[i]).contains(record) && holds_all(
            new_runs[j],
            old_runs[i],
            key,
            read_sequence,
        ) by {
        assert(old_runs[j] == new_runs[j]);
        assert(old_runs[j].contains(record));
    }
    whole_runs_stay_whole(new_runs, old_runs, key, read_sequence);
    same_sources_read_alike(before, after, key, read_sequence);
}

} // verus!
