//! Sources of a scan over a tree.
use std::sync::Arc;
use vstd::prelude::*;

use crate::bytes_order;
use crate::internal_key::ValueKind;
use crate::iterator;
use crate::iterator::RecordSource;
use crate::lsm::read;
use crate::lsm::sources;
use crate::lsm::sources::MemorySources;
use crate::lsm::tree::LsmTree;
use crate::lsm::version::LsmVersion;
use crate::memtable::Record;
use crate::point_value::SourceView;
use crate::range_tombstone;
use crate::range_tombstone::{RangeTombstone, RangeTombstoneIndex, Tombstone};
use crate::selector;
use crate::selector::{Direction, ScanSelector, Selection};
use crate::table::Table;
use crate::types;
use crate::types::{BoundView, KeyBound, KeyRange, RangeView, Sequence};

verus! {

/// What a scan merges.
#[derive(Debug)]
pub struct LsmScan {
    /// Range deletions that apply.
    pub range_tombstones: Vec<RangeTombstone>,
    /// Sorted sources.
    pub sources: Vec<RecordSource>,
}

/// Whether a scan of the sources meets the record.
pub open spec fn scans(memory: MemorySources, version: LsmVersion, record: Record) -> bool {
    ||| memory.active_memtable@.contains(record)
    ||| memory.queued_record(record)
    ||| scanned_delta_record(memory, memory.delta_snapshot.deltas@.len() as int, record)
    ||| version.has_record(record)
}

/// Whether one of the first `count` deltas is scanned and holds the record.
pub open spec fn scanned_delta_record(memory: MemorySources, count: int, record: Record) -> bool {
    exists|i: int|
        0 <= i < count && sources::is_scanned(*(#[trigger] memory.delta_snapshot.deltas@[i]))
            && memory.delta_snapshot.deltas@[i].memtable@.contains(record)
}

/// Whether every source is well formed and read in one direction.
pub open spec fn ready(list: Seq<RecordSource>, direction: Direction) -> bool {
    forall|i: int|
        0 <= i < list.len() ==> (#[trigger] list[i]).wf() && list[i].spec_direction() == direction
}

proof fn one_more_source(list: Seq<RecordSource>, added: RecordSource, record: Record)
    ensures
        iterator::union_of(list.push(added)).contains(record) <==> iterator::union_of(
            list,
        ).contains(record) || added.remaining().contains(record),
{
    let longer = list.push(added);
    if iterator::union_of(longer).contains(record) {
        let i = choose|i: int|
            0 <= i < longer.len() && (#[trigger] longer[i]).remaining().contains(record);
        if i < list.len() {
            assert(list[i].remaining().contains(record));
        }
    }
    if iterator::union_of(list).contains(record) {
        let i = choose|i: int|
            0 <= i < list.len() && (#[trigger] list[i]).remaining().contains(record);
        assert(longer[i].remaining().contains(record));
    }
    if added.remaining().contains(record) {
        assert(longer[list.len() as int].remaining().contains(record));
    }
}

/// Whether a scan of `range` has to open a table.
pub open spec fn table_meets(table: Table, range: RangeView) -> bool {
    table.range_tombstones@.len() > 0 || (RangeView {
        start: BoundView::Included(table.properties@.smallest_user_key),
        end: BoundView::Included(table.properties@.largest_user_key),
    }).overlaps(range)
}

fn table_meets_range(table: &Table, range: &KeyRange) -> (meets: bool)
    ensures
        meets == table_meets(*table, range@),
{
    if table.range_tombstones.len() > 0 {
        return true;
    }
    let span = KeyRange {
        start: KeyBound::Included(
            vstd::slice::slice_to_vec(table.properties.smallest_user_key.as_slice()),
        ),
        end: KeyBound::Included(
            vstd::slice::slice_to_vec(table.properties.largest_user_key.as_slice()),
        ),
    };
    span.overlaps(range)
}

proof fn closed_table_has_no_match(table: Table, range: RangeView, record: Record)
    requires
        table.wf(),
        !table_meets(table, range),
        table.records@.contains(record),
    ensures
        !range.contains(record.key.user_key),
{
    bytes_order::bytes_order_facts();
    let i = choose|i: int| 0 <= i < table.records@.len() && table.records@[i] == record;
    assert(table.properties@.admits(table.records@[i]));
    let span = RangeView {
        start: BoundView::Included(table.properties@.smallest_user_key),
        end: BoundView::Included(table.properties@.largest_user_key),
    };
    if range.contains(record.key.user_key) {
        assert(span.contains(record.key.user_key));
        types::shared_key_means_overlap(span, range, record.key.user_key);
    }
}

fn memory_scan_sources(
    memory: &MemorySources,
    selector: &ScanSelector,
    direction: Direction,
) -> (list: Vec<RecordSource>)
    requires
        memory.wf(),
    ensures
        ready(list@, direction),
        forall|record: Record| #[trigger]
            iterator::union_of(list@).contains(record) <==> selector@.selects(record.key.user_key)
                && (memory.active_memtable@.contains(record) || memory.queued_record(record)
                || scanned_delta_record(
                *memory,
                memory.delta_snapshot.deltas@.len() as int,
                record,
            )),
{
    let mut list: Vec<RecordSource> = Vec::new();
    let mut i: usize = 0;
    while i < memory.delta_snapshot.deltas.len()
        invariant
            memory.wf(),
            i <= memory.delta_snapshot.deltas@.len(),
            ready(list@, direction),
            forall|record: Record| #[trigger]
                iterator::union_of(list@).contains(record) <==> selector@.selects(
                    record.key.user_key,
                ) && scanned_delta_record(*memory, i as int, record),
        decreases memory.delta_snapshot.deltas@.len() - i,
    {
        let ghost before = list@;
        let delta = &memory.delta_snapshot.deltas[i];
        let ghost own = memory.delta_snapshot.deltas@[i as int];
        assert(own.wf());
        let scanned: bool = delta.estimated_bytes != 0 && delta.memtable.estimated_bytes() != 0;
        if scanned {
            let source = RecordSource::memtable(Arc::clone(&delta.memtable), selector, direction);
            let ghost added = source;
            list.push(source);
            proof {
                assert forall|record: Record| #[trigger]
                    iterator::union_of(list@).contains(record) <==> iterator::union_of(
                        before,
                    ).contains(record) || (own.memtable@.contains(record) && selector@.selects(
                        record.key.user_key,
                    )) by {
                    one_more_source(before, added, record);
                }
            }
        }
        proof {
            assert forall|record: Record| #[trigger]
                iterator::union_of(list@).contains(record) <==> selector@.selects(
                    record.key.user_key,
                ) && scanned_delta_record(*memory, i + 1, record) by {
                if scanned_delta_record(*memory, i + 1, record) {
                    let k = choose|k: int|
                        0 <= k < i + 1 && sources::is_scanned(
                            *(#[trigger] memory.delta_snapshot.deltas@[k]),
                        ) && memory.delta_snapshot.deltas@[k].memtable@.contains(record);
                    if k < i {
                        assert(scanned_delta_record(*memory, i as int, record));
                    }
                }
                if scanned_delta_record(*memory, i as int, record) {
                    let k = choose|k: int|
                        0 <= k < i && sources::is_scanned(
                            *(#[trigger] memory.delta_snapshot.deltas@[k]),
                        ) && memory.delta_snapshot.deltas@[k].memtable@.contains(record);
                    assert(scanned_delta_record(*memory, i + 1, record));
                }
                if scanned && own.memtable@.contains(record) {
                    assert(sources::is_scanned(*memory.delta_snapshot.deltas@[i as int]));
                    assert(scanned_delta_record(*memory, i + 1, record));
                }
            }
        }
        i += 1;
    }
    let ghost from_deltas = list@;
    let source = RecordSource::memtable(Arc::clone(&memory.active_memtable), selector, direction);
    let ghost added = source;
    list.push(source);
    let ghost with_active = list@;
    proof {
        assert forall|record: Record| #[trigger]
            iterator::union_of(with_active).contains(record) <==> iterator::union_of(
                from_deltas,
            ).contains(record) || (memory.active_memtable@.contains(record) && selector@.selects(
                record.key.user_key,
            )) by {
            one_more_source(from_deltas, added, record);
        }
    }
    let mut k: usize = 0;
    while k < memory.immutable_memtables.len()
        invariant
            memory.wf(),
            k <= memory.immutable_memtables@.len(),
            ready(list@, direction),
            forall|record: Record| #[trigger]
                iterator::union_of(list@).contains(record) <==> iterator::union_of(
                    with_active,
                ).contains(record) || (selector@.selects(record.key.user_key) && exists|j: int|
                    0 <= j < k && (#[trigger] memory.immutable_memtables@[j]).memtable@.contains(
                        record,
                    )),
        decreases memory.immutable_memtables@.len() - k,
    {
        let ghost before = list@;
        let ghost own = memory.immutable_memtables@[k as int];
        assert(own.wf());
        let source = RecordSource::memtable(
            Arc::clone(&memory.immutable_memtables[k].memtable),
            selector,
            direction,
        );
        let ghost added = source;
        list.push(source);
        proof {
            assert forall|record: Record| #[trigger]
                iterator::union_of(list@).contains(record) <==> iterator::union_of(
                    with_active,
                ).contains(record) || (selector@.selects(record.key.user_key) && exists|j: int|
                    0 <= j < k + 1 && (
                    #[trigger] memory.immutable_memtables@[j]).memtable@.contains(record)) by {
                one_more_source(before, added, record);
                if own.memtable@.contains(record) {
                    assert(memory.immutable_memtables@[k as int].memtable@.contains(record));
                }
            }
        }
        k += 1;
    }
    list
}

/// Opens the sources of a scan.
pub fn scan_sources(
    memory: &MemorySources,
    version: &LsmVersion,
    selector: &ScanSelector,
    direction: Direction,
) -> (list: Vec<RecordSource>)
    requires
        memory.wf(),
        version.wf(),
    ensures
        ready(list@, direction),
        forall|record: Record| #[trigger]
            iterator::union_of(list@).contains(record) <==> selector@.selects(record.key.user_key)
                && scans(*memory, *version, record),
{
    let mut list: Vec<RecordSource> = memory_scan_sources(memory, selector, direction);
    let ghost from_memory = list@;
    let range: KeyRange = selector::selector_query_range(selector);
    let mut i: usize = 0;
    while i < version.tables.len()
        invariant
            version.wf(),
            i <= version.tables@.len(),
            ready(list@, direction),
            forall|key: Seq<u8>| #[trigger] range@.contains(key) <==> selector@.selects(key),
            forall|record: Record| #[trigger]
                iterator::union_of(list@).contains(record) <==> iterator::union_of(
                    from_memory,
                ).contains(record) || (selector@.selects(record.key.user_key) && exists|j: int|
                    0 <= j < i && (#[trigger] version.tables@[j]).records@.contains(record)),
        decreases version.tables@.len() - i,
    {
        let ghost before = list@;
        let ghost own = version.tables@[i as int];
        assert(own.wf());
        let table: &Table = &version.tables[i];
        let mut open: bool = table_meets_range(table, &range);
        proof {
            if !open {
                assert forall|record: Record| #[trigger]
                    own.records@.contains(record) implies !selector@.selects(
                    record.key.user_key,
                ) by {
                    closed_table_has_no_match(*own, range@, record);
                }
            }
        }
        if open {
            if let ScanSelector::Prefix(prefix) = selector {
                if !table.may_contain_prefix(prefix.as_slice()) {
                    open = false;
                    assert forall|record: Record| #[trigger]
                        own.records@.contains(record) implies !selector@.selects(
                        record.key.user_key,
                    ) by {
                        let k = choose|k: int|
                            0 <= k < own.records@.len() && own.records@[k] == record;
                        assert(own.records@[k] == record);
                    }
                }
            }
        }
        if open {
            let source = RecordSource::table(Arc::clone(&version.tables[i]), selector, direction);
            let ghost added = source;
            list.push(source);
            proof {
                assert forall|record: Record| #[trigger]
                    iterator::union_of(list@).contains(record) <==> iterator::union_of(
                        before,
                    ).contains(record) || (own.records@.contains(record) && selector@.selects(
                        record.key.user_key,
                    )) by {
                    one_more_source(before, added, record);
                }
            }
        }
        proof {
            assert forall|record: Record| #[trigger]
                iterator::union_of(list@).contains(record) <==> iterator::union_of(
                    from_memory,
                ).contains(record) || (selector@.selects(record.key.user_key) && exists|j: int|
                    0 <= j < i + 1 && (#[trigger] version.tables@[j]).records@.contains(
                        record,
                    )) by {
                if own.records@.contains(record) {
                    assert(version.tables@[i as int].records@.contains(record));
                }
            }
        }
        i += 1;
    }
    list
}

/// Collects the range deletions that apply to a scan, in the order of their lower ends.
pub fn scan_range_tombstones(
    memory: &MemorySources,
    version: &LsmVersion,
    selector: &ScanSelector,
) -> (list: Vec<RangeTombstone>)
    ensures
        range_tombstone::is_sorted(range_tombstone::tombstones_of(list@)),
        forall|t: Tombstone| #[trigger]
            range_tombstone::tombstones_of(list@).contains(t) ==> memory.has_tombstone(t)
                || version.has_tombstone(t),
        forall|t: Tombstone, key: Seq<u8>|
            (memory.has_tombstone(t) || version.has_tombstone(t)) && #[trigger] t.range.contains(
                key,
            ) && selector@.selects(key) ==> range_tombstone::tombstones_of(list@).contains(t),
        selector@ matches Selection::Range(range) ==> forall|t: Tombstone| #[trigger]
            range_tombstone::tombstones_of(list@).contains(t) <==> (memory.has_tombstone(t)
                || version.has_tombstone(t)) && t.range.overlaps(range),
{
    let range: KeyRange = selector::selector_query_range(selector);
    let ghost keep = |t: Tombstone| t.range.overlaps(range@);
    let index: RangeTombstoneIndex = memory.memtable_range_tombstones();
    let mut found: Vec<RangeTombstone> = index.overlapping_range(&range);
    proof {
        assert forall|t: Tombstone| #[trigger]
            range_tombstone::tombstones_of(found@).contains(t) <==> memory.has_tombstone(t)
                && t.range.overlaps(range@) by {
            filter_members(index@, keep, t);
        }
    }
    let mut i: usize = 0;
    while i < version.tables.len()
        invariant
            i <= version.tables@.len(),
            keep == (|t: Tombstone| t.range.overlaps(range@)),
            forall|t: Tombstone| #[trigger]
                range_tombstone::tombstones_of(found@).contains(t) <==> (memory.has_tombstone(t)
                    || exists|j: int|
                    0 <= j < i && (#[trigger] version.tables@[j]).tombstones().contains(t))
                    && t.range.overlaps(range@),
        decreases version.tables@.len() - i,
    {
        let ghost before = range_tombstone::tombstones_of(found@);
        let ghost own = version.tables@[i as int].tombstones();
        if table_meets_range(&version.tables[i], &range) {
            let more: Vec<RangeTombstone> = version.tables[i].range_tombstones_overlapping_range(
                &range,
            );
            range_tombstone::extend_tombstones(&mut found, &more);
            proof {
                assert forall|t: Tombstone| #[trigger]
                    range_tombstone::tombstones_of(found@).contains(t) <==> before.contains(t) || (
                    own.contains(t) && t.range.overlaps(range@)) by {
                    sources::joined_contains(before, range_tombstone::tombstones_of(more@), t);
                    filter_members(own, keep, t);
                }
            }
        } else {
            assert(own =~= Seq::<Tombstone>::empty());
        }
        proof {
            assert forall|t: Tombstone| #[trigger]
                range_tombstone::tombstones_of(found@).contains(t) <==> (memory.has_tombstone(t)
                    || exists|j: int|
                    0 <= j < i + 1 && (#[trigger] version.tables@[j]).tombstones().contains(t))
                    && t.range.overlaps(range@) by {
                if own.contains(t) {
                    assert(version.tables@[i as int].tombstones().contains(t));
                }
            }
        }
        i += 1;
    }
    let ghost all = range_tombstone::tombstones_of(found@);
    let sorted: Vec<RangeTombstone> = range_tombstone::sort_tombstones(found);
    proof {
        range_tombstone::same_multiset_same_members(
            range_tombstone::tombstones_of(sorted@),
            all,
        );
        assert forall|t: Tombstone, key: Seq<u8>|
            (memory.has_tombstone(t) || version.has_tombstone(t)) && #[trigger] t.range.contains(
                key,
            ) && selector@.selects(key) implies range_tombstone::tombstones_of(sorted@).contains(
            t,
        ) by {
            types::shared_key_means_overlap(t.range, range@, key);
            assert(all.contains(t));
        }
    }
    sorted
}

proof fn filter_members(list: Seq<Tombstone>, keep: spec_fn(Tombstone) -> bool, t: Tombstone)
    ensures
        list.filter(keep).contains(t) <==> list.contains(t) && keep(t),
{
    let kept = list.filter(keep);
    if kept.contains(t) {
        list.lemma_filter_contains_rev(keep, t);
        let i = choose|i: int| 0 <= i < kept.len() && kept[i] == t;
        list.lemma_filter_pred(keep, i);
    }
    if list.contains(t) && keep(t) {
        let i = choose|i: int| 0 <= i < list.len() && list[i] == t;
        list.lemma_filter_contains(keep, i);
    }
}

impl LsmTree {
    /// Opens a scan at `read_sequence`.
    pub fn scan(&self, selector: &ScanSelector, direction: Direction, read_sequence: Sequence) -> (
        scan: LsmScan)
        requires
            self.wf(),
        ensures
            ready(scan.sources@, direction),
            forall|record: Record| #[trigger]
                iterator::union_of(scan.sources@).contains(record) ==> selector@.selects(
                    record.key.user_key,
                ) && self.read_records(read_sequence).contains(record),
            forall|record: Record|
                selector@.selects(record.key.user_key) && self.has_record(record)
                    ==> #[trigger] iterator::union_of(scan.sources@).contains(record),
            self.delta_shards.charged() ==> forall|record: Record|
                selector@.selects(record.key.user_key) && self.read_records(
                    read_sequence,
                ).contains(record) ==> #[trigger] iterator::union_of(scan.sources@).contains(
                    record,
                ),
            forall|t: Tombstone| #[trigger]
                range_tombstone::tombstones_of(scan.range_tombstones@).contains(t)
                    ==> self.reads_tombstone(read_sequence, t),
            forall|t: Tombstone, key: Seq<u8>|
                self.reads_tombstone(read_sequence, t) && #[trigger] t.range.contains(key)
                    && selector@.selects(key) ==> range_tombstone::tombstones_of(
                    scan.range_tombstones@,
                ).contains(t),
    {
        let memory: MemorySources = self.scan_source_snapshot(read_sequence);
        let version: Arc<LsmVersion> = self.current_version();
        let range_tombstones: Vec<RangeTombstone> = scan_range_tombstones(
            &memory,
            &version,
            selector,
        );
        let list: Vec<RecordSource> = scan_sources(&memory, &version, selector, direction);
        proof {
            let count = memory.delta_snapshot.deltas@.len() as int;
            assert forall|record: Record|
                scanned_delta_record(memory, count, record) implies #[trigger] self.read_records(
                read_sequence,
            ).contains(record) by {
                let k = choose|k: int|
                    0 <= k < count && sources::is_scanned(
                        *(#[trigger] memory.delta_snapshot.deltas@[k]),
                    ) && memory.delta_snapshot.deltas@[k].memtable@.contains(record);
                assert(memory.delta_snapshot.has_record(record));
            }
            assert forall|record: Record| #[trigger]
                iterator::union_of(list@).contains(record) implies selector@.selects(
                record.key.user_key,
            ) && self.read_records(read_sequence).contains(record) by {
                self.queued_agrees(memory, record, arbitrary());
            }
            assert forall|record: Record|
                selector@.selects(record.key.user_key) && self.has_record(
                    record,
                ) implies #[trigger] iterator::union_of(list@).contains(record) by {
                self.queued_agrees(memory, record, arbitrary());
                assert(scans(memory, *version, record));
            }
            if self.delta_shards.charged() {
                assert forall|record: Record|
                    selector@.selects(record.key.user_key) && self.read_records(
                        read_sequence,
                    ).contains(record) implies #[trigger] iterator::union_of(list@).contains(
                    record,
                ) by {
                    self.queued_agrees(memory, record, arbitrary());
                    if !self.has_record(record) {
                        assert(memory.delta_snapshot.has_record(record));
                        let k = choose|k: int|
                            0 <= k < count && (
                            #[trigger] memory.delta_snapshot.deltas@[k]).memtable@.contains(record);
                        let delta = memory.delta_snapshot.deltas@[k];
                        assert(self.delta_shards.has_delta(delta));
                        assert(delta.memtable@.len() > 0);
                        assert(sources::is_scanned(*delta));
                        assert(scanned_delta_record(memory, count, record));
                    }
                    assert(scans(memory, *version, record));
                }
            }
            assert forall|t: Tombstone|
                memory.has_tombstone(t) || version.has_tombstone(t)
                    <==> #[trigger] self.reads_tombstone(read_sequence, t) by {
                self.queued_agrees(memory, arbitrary(), t);
            }
            assert forall|t: Tombstone| #[trigger]
                range_tombstone::tombstones_of(range_tombstones@).contains(
                    t,
                ) implies self.reads_tombstone(read_sequence, t) by {
                assert(memory.has_tombstone(t) || version.has_tombstone(t));
            }
        }
        LsmScan { range_tombstones, sources: list }
    }
}

/// A scan and a point read agree: where no in-memory source splits a commit and range
/// deletions are not stored as point records, a scan shows a key with a value exactly
/// if a point read of the key finds that value.
pub proof fn scan_agrees_with_point_read(
    tree: LsmTree,
    records: Set<Record>,
    tombstones: Seq<Tombstone>,
    key: Seq<u8>,
    read_sequence: Sequence,
    value: SourceView,
)
    requires
        forall|record: Record|
            record.key.user_key == key ==> (#[trigger] records.contains(record)
                <==> tree.read_records(read_sequence).contains(record)),
        forall|t: Tombstone|
            #[trigger] t.range.contains(key) ==> (tombstones.contains(t) <==> tree.reads_tombstone(
                read_sequence,
                t,
            )),
        forall|record: Record| #[trigger]
            records.contains(record) ==> record.key.kind != ValueKind::RangeDelete,
        read::whole_commits(tree.key_runs(key, read_sequence), key, read_sequence),
    ensures
        (exists|record: Record| #[trigger]
            iterator::scan_shows(records, tombstones, key, read_sequence, record)
                && read::value_of(record) == Some(value)) <==> tree.finds(
            key,
            read_sequence,
            Some(value),
        ),
{
    assert forall|record: Record| #[trigger]
        iterator::scan_newest(records, key, read_sequence, record) <==> tree.decides(
            key,
            read_sequence,
            record,
        ) by {
        newest_agree(tree, records, key, read_sequence, record);
    }
    assert forall|record: Record|
        iterator::scan_newest(records, key, read_sequence, record) <==> #[trigger] tree.decides(
            key,
            read_sequence,
            record,
        ) by {
        newest_agree(tree, records, key, read_sequence, record);
    }
    assert forall|record: Record|
        record.key.user_key == key implies (range_tombstone::any_covers(
        tombstones,
        key,
        record.key.sequence,
        record.key.batch_index,
        read_sequence,
    ) <==> #[trigger] tree.covers(record, read_sequence)) by {
        if tree.covers(record, read_sequence) {
            let t = choose|t: Tombstone|
                tree.reads_tombstone(read_sequence, t) && #[trigger] t.covers(
                    record.key.user_key,
                    record.key.sequence,
                    record.key.batch_index,
                    read_sequence,
                );
            assert(t.range.contains(key));
            let i = choose|i: int| 0 <= i < tombstones.len() && tombstones[i] == t;
            assert(tombstones[i].covers(
                key,
                record.key.sequence,
                record.key.batch_index,
                read_sequence,
            ));
        }
        if range_tombstone::any_covers(
            tombstones,
            key,
            record.key.sequence,
            record.key.batch_index,
            read_sequence,
        ) {
            let i = choose|i: int|
                0 <= i < tombstones.len() && (#[trigger] tombstones[i]).covers(
                    key,
                    record.key.sequence,
                    record.key.batch_index,
                    read_sequence,
                );
            let t = tombstones[i];
            assert(tombstones.contains(t));
            assert(t.range.contains(key));
            assert(t.covers(
                record.key.user_key,
                record.key.sequence,
                record.key.batch_index,
                read_sequence,
            ));
        }
    }
    if exists|record: Record| #[trigger]
        iterator::scan_shows(records, tombstones, key, read_sequence, record) && read::value_of(
            record,
        ) == Some(value) {
        let record = choose|record: Record| #[trigger]
            iterator::scan_shows(records, tombstones, key, read_sequence, record)
                && read::value_of(record) == Some(value);
        assert(tree.decides(key, read_sequence, record));
        assert(!tree.covers(record, read_sequence));
    }
    if tree.finds(key, read_sequence, Some(value)) {
        let record = choose|record: Record| #[trigger]
            tree.decides(key, read_sequence, record) && record.key.kind == ValueKind::Put
                && !tree.covers(record, read_sequence) && read::value_of(record) == Some(value);
        assert(iterator::scan_shows(records, tombstones, key, read_sequence, record));
    }
}

proof fn newest_agree(
    tree: LsmTree,
    records: Set<Record>,
    key: Seq<u8>,
    read_sequence: Sequence,
    record: Record,
)
    requires
        forall|record: Record|
            record.key.user_key == key ==> (#[trigger] records.contains(record)
                <==> tree.read_records(read_sequence).contains(record)),
        forall|record: Record| #[trigger]
            records.contains(record) ==> record.key.kind != ValueKind::RangeDelete,
        read::whole_commits(tree.key_runs(key, read_sequence), key, read_sequence),
    ensures
        iterator::scan_newest(records, key, read_sequence, record) <==> tree.decides(
            key,
            read_sequence,
            record,
        ),
{
    let all = tree.read_records(read_sequence);
    if iterator::scan_newest(records, key, read_sequence, record) {
        assert(records.contains(record));
        assert forall|other: Record| #[trigger]
            all.contains(other) && other.visible_to(key, read_sequence) implies read::settled(
            other.key,
            record.key,
            true,
        ) by {
            assert(records.contains(other));
            assert(!other.key.lt(record.key));
        }
    }
    if tree.decides(key, read_sequence, record) {
        assert(all.contains(record));
        assert(records.contains(record));
        assert forall|other: Record| #[trigger]
            records.contains(other) && iterator::scan_sees(
                other,
                key,
                read_sequence,
            ) implies !other.key.lt(record.key) by {
            assert(all.contains(other));
        }
    }
}

} // verus!
