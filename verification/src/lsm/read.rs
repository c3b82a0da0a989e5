//! Point reads over a snapshot of a tree's sources.
use std::sync::Arc;
use vstd::prelude::*;

use crate::error::{Error, ErrorKind, Result};
use crate::internal_key;
use crate::internal_key::{InternalKey, RecordKey, ValueKind};
use crate::lsm::batch;
use crate::lsm::batch::PointReadBatch;
use crate::lsm::sources::{InMemoryDelta, MemorySources};
use crate::lsm::version::LsmVersion;
use crate::memtable;
use crate::memtable::{Memtable, MemtableEntry, Record};
use crate::point_value::{PointValueSource, SourceView};
use crate::range_tombstone;
use crate::range_tombstone::{RangeTombstoneIndex, Tombstone};
use crate::table::Table;
use crate::types::Sequence;

verus! {

/// The sources that one point read works on.
#[derive(Debug)]
pub struct LsmPointReadSnapshot {
    /// Tables.
    pub version: Arc<LsmVersion>,
    /// In-memory sources.
    pub memory: MemorySources,
}

impl MemorySources {
    /// The in-memory sources in the order in which a read visits them.
    pub open spec fn runs(&self) -> Seq<Seq<Record>> {
        let queued = self.immutable_memtables@.len();
        Seq::new(
            1 + queued + self.delta_snapshot.deltas@.len(),
            |i: int|
                if i == 0 {
                    self.active_memtable@
                } else if i <= queued {
                    self.immutable_memtables@[i - 1].memtable@
                } else {
                    self.delta_snapshot.deltas@[i - 1 - queued].memtable@
                },
        )
    }
}

impl MemorySources {
    /// The in-memory sources in the order in which a read visits them: the active memtable,
    /// the queued ones from the oldest on, and the deltas.
    pub open spec fn point_sources(&self) -> Seq<PointSource> {
        let queued = self.immutable_memtables@.len();
        Seq::new(
            1 + queued + self.delta_snapshot.deltas@.len(),
            |i: int|
                PointSource {
                    records: self.runs()[i],
                    latest: if i <= queued {
                        None
                    } else {
                        Some(self.delta_snapshot.deltas@[i - 1 - queued].sequence)
                    },
                },
        )
    }
}

/// The records of the first `count` runs.
pub open spec fn first_runs(runs: Seq<Seq<Record>>, count: int) -> Set<Record> {
    Set::new(
        |record: Record|
            exists|i: int| 0 <= i < count && (#[trigger] runs[i]).contains(record),
    )
}

/// Whether every run holds either all records that a commit wrote for a user key,
/// or none of them, for the commits that a read sees.
#[verifier::opaque]
pub open spec fn whole_commits(
    runs: Seq<Seq<Record>>,
    key: Seq<u8>,
    read_sequence: Sequence,
) -> bool {
    forall|i: int, j: int, a: Record, b: Record|
        #![trigger runs[i].contains(a), runs[j].contains(b)]
        0 <= i < runs.len() && 0 <= j < runs.len() && runs[i].contains(a) && runs[j].contains(b)
            && a.visible_to(key, read_sequence) && b.visible_to(key, read_sequence)
            && a.key.sequence == b.key.sequence ==> exists|
            c: Record,
        | #[trigger]
            runs[i].contains(c) && c.key == b.key
}

impl LsmPointReadSnapshot {
    /// Whether every source is well formed.
    pub open spec fn wf(&self) -> bool {
        self.version.wf() && self.memory.wf()
    }

    /// Every point record of the snapshot.
    pub open spec fn records(&self) -> Set<Record> {
        Set::new(
            |record: Record| self.memory.has_record(record) || self.version.has_record(record),
        )
    }

    /// Whether a range deletion of the snapshot covers the record.
    pub open spec fn covers(&self, record: Record, read_sequence: Sequence) -> bool {
        exists|tombstone: Tombstone|
            (self.memory.has_tombstone(tombstone) || self.version.has_tombstone(tombstone))
                && #[trigger] tombstone.covers(
                record.key.user_key,
                record.key.sequence,
                record.key.batch_index,
                read_sequence,
            )
    }

    /// Whether no in-memory source splits a commit.
    pub open spec fn whole_commits(&self, key: Seq<u8>, read_sequence: Sequence) -> bool {
        whole_commits(self.memory.runs(), key, read_sequence)
    }

    /// Whether `record` decides a read of `key` at `read_sequence`: the read sees it,
    /// no record that the read sees is of a later commit, and, where no source splits
    /// a commit, none is newer.
    pub open spec fn decides(&self, key: Seq<u8>, read_sequence: Sequence, record: Record) -> bool {
        newest_of(
            self.records(),
            key,
            read_sequence,
            self.whole_commits(key, read_sequence),
            record,
        )
    }

    /// The sources in the order in which a read visits them.
    pub open spec fn point_sources(&self) -> Seq<PointSource> {
        self.memory.point_sources() + table_sources(self.version.tables@)
    }

    /// The record that a read of `key` at `read_sequence` takes.
    pub open spec fn takes(&self, key: Seq<u8>, read_sequence: Sequence) -> Option<Record> {
        taken(self.point_sources(), key, read_sequence)
    }

    /// What a read of `key` at `read_sequence` gives back: the value of the record that it
    /// takes, if that is a put which no range deletion covers, and corruption if the put lacks
    /// its value.
    pub open spec fn answers(
        &self,
        key: Seq<u8>,
        read_sequence: Sequence,
        result: Result<Option<PointValueSource>>,
    ) -> bool {
        answered_with(
            self.takes(key, read_sequence),
            |record: Record| self.covers(record, read_sequence),
            result,
        )
    }

    /// What a read of many keys gives back: what the read of each gives back, or the error of
    /// one of them.
    pub open spec fn answers_all(
        &self,
        keys: Seq<Vec<u8>>,
        read_sequence: Sequence,
        result: Result<Vec<Option<PointValueSource>>>,
    ) -> bool {
        match result {
            Ok(values) => {
                &&& values@.len() == keys.len()
                &&& forall|i: int|
                    0 <= i < keys.len() ==> self.answers(
                        (#[trigger] keys[i])@,
                        read_sequence,
                        Ok(values@[i]),
                    )
            },
            Err(error) => exists|i: int|
                0 <= i < keys.len() && self.answers(
                    (#[trigger] keys[i])@,
                    read_sequence,
                    Err(error),
                ),
        }
    }

    /// What a read of `key` at `read_sequence` may find.
    pub open spec fn finds(
        &self,
        key: Seq<u8>,
        read_sequence: Sequence,
        found: Option<SourceView>,
    ) -> bool {
        match found {
            Some(value) => exists|record: Record| #[trigger]
                self.decides(key, read_sequence, record) && record.key.kind == ValueKind::Put
                    && !self.covers(record, read_sequence) && value_of(record) == Some(value),
            None => {
                ||| forall|record: Record| #[trigger]
                    self.records().contains(record) ==> !record.visible_to(key, read_sequence)
                ||| exists|record: Record| #[trigger]
                    self.decides(key, read_sequence, record) && (record.key.kind != ValueKind::Put
                        || self.covers(record, read_sequence))
            },
        }
    }

    /// Whether a read of `key` at `read_sequence` meets a put that lacks its value.
    pub open spec fn breaks(&self, key: Seq<u8>, read_sequence: Sequence) -> bool {
        exists|record: Record| #[trigger]
            self.decides(key, read_sequence, record) && record.key.kind == ValueKind::Put
                && !self.covers(record, read_sequence) && record.value is None
    }
}

/// What a read of this record finds.
pub open spec fn value_of(record: Record) -> Option<SourceView> {
    match record.value {
        Some(value) => Some(SourceView::of(value)),
        None => None,
    }
}

/// Whether a record with key `other` leaves a candidate with key `chosen` in place.
pub open spec fn settled(other: RecordKey, chosen: RecordKey, strict: bool) -> bool {
    other.sequence.0 <= chosen.sequence.0 && (strict ==> !other.lt(chosen))
}

/// Whether `record` is among `records`, a read of `key` sees it, and every other
/// record that the read sees leaves it in place.
pub open spec fn newest_of(
    records: Set<Record>,
    key: Seq<u8>,
    read_sequence: Sequence,
    strict: bool,
    record: Record,
) -> bool {
    &&& records.contains(record)
    &&& record.visible_to(key, read_sequence)
    &&& forall|other: Record| #[trigger]
        records.contains(other) && other.visible_to(key, read_sequence) ==> settled(
            other.key,
            record.key,
            strict,
        )
}

/// The newest record of a run that a read of `key` sees.
pub open spec fn newest_in(
    run: Seq<Record>,
    key: Seq<u8>,
    read_sequence: Sequence,
) -> Option<Record> {
    if exists|record: Record| #[trigger]
        newest_of(run.to_set(), key, read_sequence, true, record) {
        Some(
            choose|record: Record| #[trigger]
                newest_of(run.to_set(), key, read_sequence, true, record),
        )
    } else {
        None
    }
}

/// A record where it is newer than the one that was met before it, and that one otherwise.
pub open spec fn newer(met: Option<Record>, record: Option<Record>) -> Option<Record> {
    match (met, record) {
        (_, None) => met,
        (None, Some(_)) => record,
        (Some(current), Some(other)) => if other.key.lt(current.key) {
            record
        } else {
            met
        },
    }
}

/// One source of a point read.
pub struct PointSource {
    /// Its records.
    pub records: Seq<Record>,
    /// The commit up to which it was written, where a read passes over it once it has met a
    /// record of that commit or a later one.
    pub latest: Option<Sequence>,
}

/// The record that a read of `key` takes from sources that it visits in order.
pub open spec fn taken(
    sources: Seq<PointSource>,
    key: Seq<u8>,
    read_sequence: Sequence,
) -> Option<Record>
    decreases sources.len(),
{
    if sources.len() == 0 {
        None
    } else {
        let met = taken(sources.drop_last(), key, read_sequence);
        match (sources.last().latest, met) {
            (Some(latest), Some(current)) if latest.0 <= current.key.sequence.0 => met,
            _ => newer(met, newest_in(sources.last().records, key, read_sequence)),
        }
    }
}

/// The sources that hold runs of records and are always visited.
pub open spec fn table_sources(tables: Seq<Arc<Table>>) -> Seq<PointSource> {
    Seq::new(tables.len(), |i: int| PointSource { records: tables[i].records@, latest: None })
}

/// The sources that deltas are for a read.
pub open spec fn delta_sources(deltas: Seq<Arc<InMemoryDelta>>) -> Seq<PointSource> {
    Seq::new(
        deltas.len(),
        |i: int|
            PointSource { records: deltas[i].memtable@, latest: Some(deltas[i].sequence) },
    )
}

/// Sources that hold no record of `key` change nothing about what a read of `key` takes.
pub proof fn foreign_sources_are_passed(
    sources: Seq<PointSource>,
    foreign: Seq<PointSource>,
    key: Seq<u8>,
    read_sequence: Sequence,
)
    requires
        forall|i: int, record: Record|
            0 <= i < foreign.len() && #[trigger] foreign[i].records.contains(record)
                ==> record.key.user_key != key,
    ensures
        taken(sources + foreign, key, read_sequence) == taken(sources, key, read_sequence),
    decreases foreign.len(),
{
    if foreign.len() == 0 {
        assert(sources + foreign =~= sources);
    } else {
        foreign_sources_are_passed(sources, foreign.drop_last(), key, read_sequence);
        assert((sources + foreign).drop_last() =~= sources + foreign.drop_last());
        let run = foreign.last().records;
        assert forall|record: Record| !#[trigger]
            newest_of(run.to_set(), key, read_sequence, true, record) by {
            if run.contains(record) {
                assert(foreign[foreign.len() - 1].records.contains(record));
            }
        }
        assert(newest_in(run, key, read_sequence) is None);
    }
}

/// What a read takes from the sources that follow depends only on what it took before.
pub proof fn later_sources_agree(
    a: Seq<PointSource>,
    b: Seq<PointSource>,
    later: Seq<PointSource>,
    key: Seq<u8>,
    read_sequence: Sequence,
)
    requires
        taken(a, key, read_sequence) == taken(b, key, read_sequence),
    ensures
        taken(a + later, key, read_sequence) == taken(b + later, key, read_sequence),
    decreases later.len(),
{
    if later.len() == 0 {
        assert(a + later =~= a);
        assert(b + later =~= b);
    } else {
        later_sources_agree(a, b, later.drop_last(), key, read_sequence);
        assert((a + later).drop_last() =~= a + later.drop_last());
        assert((b + later).drop_last() =~= b + later.drop_last());
    }
}

/// The newest record that a read has met so far.
#[derive(Debug)]
pub struct PointRecordCandidate {
    /// Key of the record.
    pub internal_key: InternalKey,
    /// What the read finds there.
    pub value: Option<PointValueSource>,
}

/// Mathematical form of an optional found value.
pub open spec fn source_view(value: Option<PointValueSource>) -> Option<SourceView> {
    match value {
        Some(value) => Some(value@),
        None => None,
    }
}

/// Whether a read that takes a record gives back this result.
pub open spec fn answered_with(
    record: Option<Record>,
    covered: spec_fn(Record) -> bool,
    result: Result<Option<PointValueSource>>,
) -> bool {
    match record {
        None => result matches Ok(None),
        Some(record) => if record.key.kind != ValueKind::Put || covered(record) {
            result matches Ok(None)
        } else {
            match value_of(record) {
                Some(value) => result matches Ok(Some(found)) && found@ == value,
                None => result matches Err(error) && error.says(
                    ErrorKind::Corruption,
                    "put record is missing value bytes"@,
                ),
            }
        },
    }
}

/// Whether two reads gave back the same: the same value, no value, or the same error.
pub open spec fn same_answer(
    a: Result<Option<PointValueSource>>,
    b: Result<Option<PointValueSource>>,
) -> bool {
    match (a, b) {
        (Ok(a), Ok(b)) => source_view(a) == source_view(b),
        (Err(a), Err(b)) => a.kind() == b.kind() && a.spec_text() == b.spec_text(),
        _ => false,
    }
}

/// Whether the candidate stands for a record.
pub open spec fn candidate_is(
    candidate: Option<PointRecordCandidate>,
    record: Option<Record>,
) -> bool {
    match (candidate, record) {
        (Some(candidate), Some(record)) => candidate.internal_key@ == record.key && source_view(
            candidate.value,
        ) == value_of(record),
        (None, None) => true,
        _ => false,
    }
}

/// Whether the candidate stands for the newest of `records`.
pub open spec fn candidate_of(
    candidate: Option<PointRecordCandidate>,
    records: Set<Record>,
    key: Seq<u8>,
    read_sequence: Sequence,
    strict: bool,
) -> bool {
    match candidate {
        Some(candidate) => exists|record: Record| #[trigger]
            newest_of(records, key, read_sequence, strict, record) && record.key
                == candidate.internal_key@ && value_of(record) == source_view(candidate.value),
        None => forall|record: Record| #[trigger]
            records.contains(record) ==> !record.visible_to(key, read_sequence),
    }
}

/// Replaces the candidate by a record that is newer.
pub fn keep_newer_point_candidate(
    candidate: &mut Option<PointRecordCandidate>,
    entry: &MemtableEntry,
)
    ensures
        match *old(candidate) {
            Some(current) => if entry@.key.lt(current.internal_key@) {
                &&& *final(candidate) is Some
                &&& (*final(candidate))->0.internal_key@ == entry@.key
                &&& source_view((*final(candidate))->0.value) == value_of(entry@)
            } else {
                *final(candidate) == *old(candidate)
            },
            None => {
                &&& *final(candidate) is Some
                &&& (*final(candidate))->0.internal_key@ == entry@.key
                &&& source_view((*final(candidate))->0.value) == value_of(entry@)
            },
        },
{
    let replace: bool = match candidate {
        Some(current) => entry.key.comes_before(&current.internal_key),
        None => true,
    };
    if replace {
        let value: Option<PointValueSource> = match &entry.value {
            Some(value) => Some(PointValueSource::from_value_ref(value.clone())),
            None => None,
        };
        *candidate = Some(PointRecordCandidate { internal_key: entry.key.clone(), value });
    }
}

proof fn candidate_grows(
    before: Option<PointRecordCandidate>,
    after: Option<PointRecordCandidate>,
    seen: Set<Record>,
    added: Set<Record>,
    newest: Option<Record>,
    key: Seq<u8>,
    read_sequence: Sequence,
    strict: bool,
)
    requires
        candidate_of(before, seen, key, read_sequence, strict),
        match newest {
            Some(record) => newest_of(added, key, read_sequence, true, record),
            None => forall|record: Record| #[trigger]
                added.contains(record) ==> !record.visible_to(key, read_sequence),
        },
        match newest {
            None => after == before,
            Some(record) => match before {
                Some(current) => if record.key.lt(current.internal_key@) {
                    &&& after is Some
                    &&& after->0.internal_key@ == record.key
                    &&& source_view(after->0.value) == value_of(record)
                } else {
                    after == before
                },
                None => {
                    &&& after is Some
                    &&& after->0.internal_key@ == record.key
                    &&& source_view(after->0.value) == value_of(record)
                },
            },
        },
    ensures
        candidate_of(after, seen.union(added), key, read_sequence, strict),
{
    internal_key::record_order_facts();
    let all = seen.union(added);
    match newest {
        None => {
            match before {
                Some(current) => {
                    let record = choose|record: Record| #[trigger]
                        newest_of(seen, key, read_sequence, strict, record) && record.key
                            == current.internal_key@ && value_of(record) == source_view(
                            current.value,
                        );
                    assert(newest_of(all, key, read_sequence, strict, record));
                },
                None => {},
            }
        },
        Some(found) => {
            match before {
                Some(current) => {
                    let record = choose|record: Record| #[trigger]
                        newest_of(seen, key, read_sequence, strict, record) && record.key
                            == current.internal_key@ && value_of(record) == source_view(
                            current.value,
                        );
                    if found.key.lt(current.internal_key@) {
                        assert(newest_of(all, key, read_sequence, strict, found));
                    } else {
                        assert(newest_of(all, key, read_sequence, strict, record));
                    }
                },
                None => {
                    assert(newest_of(all, key, read_sequence, strict, found));
                },
            }
        },
    }
}

proof fn candidate_skips(
    candidate: Option<PointRecordCandidate>,
    seen: Set<Record>,
    added: Set<Record>,
    key: Seq<u8>,
    read_sequence: Sequence,
    strict: bool,
)
    requires
        candidate is Some,
        candidate_of(candidate, seen, key, read_sequence, strict),
        forall|other: Record| #[trigger]
            added.contains(other) && other.visible_to(key, read_sequence) ==> settled(
                other.key,
                candidate->0.internal_key@,
                strict,
            ),
    ensures
        candidate_of(candidate, seen.union(added), key, read_sequence, strict),
{
    let current = candidate->0;
    let record = choose|record: Record| #[trigger]
        newest_of(seen, key, read_sequence, strict, record) && record.key == current.internal_key@
            && value_of(record) == source_view(current.value);
    assert(newest_of(seen.union(added), key, read_sequence, strict, record));
}

/// A sorted run has one newest record.
proof fn newest_is_found(
    run: Seq<Record>,
    key: Seq<u8>,
    read_sequence: Sequence,
    record: Record,
)
    requires
        memtable::is_sorted(run),
        newest_of(run.to_set(), key, read_sequence, true, record),
    ensures
        newest_in(run, key, read_sequence) == Some(record),
{
    internal_key::record_order_facts();
    let found = newest_in(run, key, read_sequence)->0;
    assert(newest_of(run.to_set(), key, read_sequence, true, found));
    assert(run.contains(found) && run.contains(record));
    assert(settled(found.key, record.key, true) && settled(record.key, found.key, true));
    let i = choose|i: int| 0 <= i < run.len() && run[i] == found;
    let j = choose|j: int| 0 <= j < run.len() && run[j] == record;
    if i < j {
        assert(run[i].key.lt(run[j].key));
    } else if j < i {
        assert(run[j].key.lt(run[i].key));
    }
}

proof fn nothing_is_found(run: Seq<Record>, key: Seq<u8>, read_sequence: Sequence)
    requires
        forall|record: Record| #[trigger]
            run.contains(record) ==> !record.visible_to(key, read_sequence),
    ensures
        newest_in(run, key, read_sequence) is None,
{
    if exists|record: Record| #[trigger]
        newest_of(run.to_set(), key, read_sequence, true, record) {
        let found = newest_in(run, key, read_sequence)->0;
        assert(run.contains(found));
    }
}

/// Takes the newest visible record of one memtable into account.
pub fn keep_newest_visible_memtable_point_candidate(
    candidate: &mut Option<PointRecordCandidate>,
    memtable: &Memtable,
    key: &[u8],
    read_sequence: Sequence,
)
    requires
        memtable.wf(),
    ensures
        forall|seen: Set<Record>, strict: bool| #[trigger]
            candidate_of(*old(candidate), seen, key@, read_sequence, strict) ==> candidate_of(
                *final(candidate),
                seen.union(memtable@.to_set()),
                key@,
                read_sequence,
                strict,
            ),
        forall|met: Option<Record>| #[trigger]
            candidate_is(*old(candidate), met) ==> candidate_is(
                *final(candidate),
                newer(met, newest_in(memtable@, key@, read_sequence)),
            ),
{
    let ghost before = *candidate;
    let ghost added = memtable@.to_set();
    proof {
        memtable.wf_facts();
        internal_key::record_order_facts();
        assert forall|record: Record| #[trigger] added.contains(record) <==> memtable@.contains(record) by {}
    }
    let records = memtable.read_entries();
    match records.newest_visible(key, read_sequence) {
        Some(index) => {
            let entry: &MemtableEntry = records.get(index);
            keep_newer_point_candidate(candidate, entry);
            proof {
                memtable::first_visible_is_newest(memtable@, index as int, key@, read_sequence);
                let record = memtable@[index as int];
                assert(newest_of(added, key@, read_sequence, true, record));
                newest_is_found(memtable@, key@, read_sequence, record);
                assert forall|seen: Set<Record>, strict: bool| #[trigger]
                    candidate_of(before, seen, key@, read_sequence, strict) implies candidate_of(
                    *candidate,
                    seen.union(added),
                    key@,
                    read_sequence,
                    strict,
                ) by {
                    candidate_grows(
                        before,
                        *candidate,
                        seen,
                        added,
                        Some(record),
                        key@,
                        read_sequence,
                        strict,
                    );
                }
            }
        },
        None => {
            proof {
                assert forall|record: Record| #[trigger]
                    added.contains(record) implies !record.visible_to(key@, read_sequence) by {
                    let i = choose|i: int| 0 <= i < memtable@.len() && memtable@[i] == record;
                }
                nothing_is_found(memtable@, key@, read_sequence);
                assert forall|seen: Set<Record>, strict: bool| #[trigger]
                    candidate_of(before, seen, key@, read_sequence, strict) implies candidate_of(
                    *candidate,
                    seen.union(added),
                    key@,
                    read_sequence,
                    strict,
                ) by {
                    candidate_grows(
                        before,
                        *candidate,
                        seen,
                        added,
                        None,
                        key@,
                        read_sequence,
                        strict,
                    );
                }
            }
        },
    }
}

/// Tells whether a table may hold a record that is newer than the candidate.
pub fn table_may_have_newer_point_record(
    table: &Table,
    candidate: &Option<PointRecordCandidate>,
) -> (may: bool)
    ensures
        may == match *candidate {
            Some(current) => table.properties.largest_sequence.0
                >= current.internal_key@.sequence.0,
            None => true,
        },
{
    match candidate {
        Some(current) => table.properties().largest_sequence.get()
            >= current.internal_key.sequence().get(),
        None => true,
    }
}

/// Takes the newest visible record of one table into account, unless the table
/// cannot hold a newer one.
pub fn keep_newest_visible_table_point_candidate(
    candidate: &mut Option<PointRecordCandidate>,
    table: &Table,
    key: &[u8],
    read_sequence: Sequence,
)
    requires
        table.wf(),
    ensures
        forall|seen: Set<Record>, strict: bool| #[trigger]
            candidate_of(*old(candidate), seen, key@, read_sequence, strict) ==> candidate_of(
                *final(candidate),
                seen.union(table.records@.to_set()),
                key@,
                read_sequence,
                strict,
            ),
        forall|met: Option<Record>| #[trigger]
            candidate_is(*old(candidate), met) && (met is Some ==> met->0.key.user_key == key@)
                ==> candidate_is(
                *final(candidate),
                newer(met, newest_in(table.records@, key@, read_sequence)),
            ),
{
    let ghost before = *candidate;
    let ghost added = table.records@.to_set();
    proof {
        internal_key::record_order_facts();
        assert forall|record: Record| #[trigger] added.contains(record) <==> table.records@.contains(record) by {}
        assert forall|record: Record| #[trigger] added.contains(record) implies table.properties@.admits(record) by {
            let i = choose|i: int| 0 <= i < table.records@.len() && table.records@[i] == record;
        }
    }
    let mut newest: Option<&MemtableEntry> = None;
    if !table.properties().spans_key(key) {
        proof {
            assert forall|record: Record| #[trigger]
                added.contains(record) implies !record.visible_to(key@, read_sequence) by {
                assert(table.properties@.admits(record));
            }
        }
    } else if !table_may_have_newer_point_record(table, candidate) {
        proof {
            assert forall|seen: Set<Record>, strict: bool| #[trigger]
                candidate_of(before, seen, key@, read_sequence, strict) implies candidate_of(
                *candidate,
                seen.union(added),
                key@,
                read_sequence,
                strict,
            ) by {
                candidate_skips(before, seen, added, key@, read_sequence, strict);
            }
            let found = newest_in(table.records@, key@, read_sequence);
            if let Some(record) = found {
                assert(newest_of(added, key@, read_sequence, true, record));
                assert(table.properties@.admits(record));
                assert(before->0.internal_key@.user_key == key@ ==> !record.key.lt(
                    before->0.internal_key@,
                ));
            }
        }
        return ;
    } else {
        newest = table.newest_visible_point_record(key, read_sequence);
    }
    let ghost found: Option<Record> = match newest {
        Some(entry) => Some(entry@),
        None => None,
    };
    if let Some(entry) = newest {
        keep_newer_point_candidate(candidate, entry);
        proof {
            assert(newest_of(added, key@, read_sequence, true, entry@));
            newest_is_found(table.records@, key@, read_sequence, entry@);
        }
    } else {
        proof {
            nothing_is_found(table.records@, key@, read_sequence);
        }
    }
    proof {
        assert forall|seen: Set<Record>, strict: bool| #[trigger]
            candidate_of(before, seen, key@, read_sequence, strict) implies candidate_of(
            *candidate,
            seen.union(added),
            key@,
            read_sequence,
            strict,
        ) by {
            candidate_grows(
                before,
                *candidate,
                seen,
                added,
                found,
                key@,
                read_sequence,
                strict,
            );
        }
    }
}

/// Finds the newest visible record of the in-memory sources.
pub fn newest_visible_memtable_point_candidate_in_snapshot(
    memory: &MemorySources,
    key: &[u8],
    read_sequence: Sequence,
) -> (candidate: Option<PointRecordCandidate>)
    requires
        memory.wf(),
    ensures
        candidate_of(
            candidate,
            first_runs(memory.runs(), memory.runs().len() as int),
            key@,
            read_sequence,
            whole_commits(memory.runs(), key@, read_sequence),
        ),
        candidate_is(candidate, taken(memory.point_sources(), key@, read_sequence)),
{
    let ghost runs = memory.runs();
    let ghost sources = memory.point_sources();
    let ghost strict = whole_commits(runs, key@, read_sequence);
    let mut candidate: Option<PointRecordCandidate> = None;
    proof {
        assert(first_runs(runs, 0) =~= Set::<Record>::empty());
        assert(candidate_of(candidate, first_runs(runs, 0), key@, read_sequence, strict));
        assert(sources.take(0) =~= Seq::empty());
        assert(candidate_is(candidate, taken(sources.take(0), key@, read_sequence)));
    }
    keep_newest_visible_memtable_point_candidate(
        &mut candidate,
        &memory.active_memtable,
        key,
        read_sequence,
    );
    proof {
        one_more_run(runs, 0);
        one_more_source(sources, 0, key@, read_sequence);
    }
    let queued: usize = memory.immutable_memtables.len();
    let mut i: usize = 0;
    while i < queued
        invariant
            memory.wf(),
            runs == memory.runs(),
            queued == memory.immutable_memtables@.len(),
            i <= queued,
            candidate_of(candidate, first_runs(runs, i + 1), key@, read_sequence, strict),
            sources == memory.point_sources(),
            candidate_is(candidate, taken(sources.take(i + 1), key@, read_sequence)),
        decreases queued - i,
    {
        keep_newest_visible_memtable_point_candidate(
            &mut candidate,
            &memory.immutable_memtables[i].memtable,
            key,
            read_sequence,
        );
        proof {
            one_more_run(runs, i + 1);
            one_more_source(sources, i + 1, key@, read_sequence);
        }
        i += 1;
    }
    let count: usize = memory.delta_snapshot.deltas.len();
    let mut j: usize = 0;
    while j < count
        invariant
            memory.wf(),
            runs == memory.runs(),
            strict == whole_commits(runs, key@, read_sequence),
            queued == memory.immutable_memtables@.len(),
            count == memory.delta_snapshot.deltas@.len(),
            j <= count,
            candidate_of(
                candidate,
                first_runs(runs, 1 + queued + j),
                key@,
                read_sequence,
                strict,
            ),
            sources == memory.point_sources(),
            candidate_is(candidate, taken(sources.take(1 + queued + j), key@, read_sequence)),
        decreases count - j,
    {
        let delta = &memory.delta_snapshot.deltas[j];
        let skip: bool = match &candidate {
            Some(current) => delta.sequence.get() <= current.internal_key.sequence().get(),
            None => false,
        };
        if skip {
            proof {
                skipped_delta_is_settled(memory, j as int, candidate, key@, read_sequence);
            }
        } else {
            keep_newest_visible_memtable_point_candidate(
                &mut candidate,
                &delta.memtable,
                key,
                read_sequence,
            );
        }
        proof {
            one_more_run(runs, 1 + queued + j);
            one_more_source(sources, 1 + queued + j, key@, read_sequence);
        }
        j += 1;
    }
    assert(sources.take(1 + queued + count) =~= sources);
    candidate
}

proof fn one_more_source(
    sources: Seq<PointSource>,
    count: int,
    key: Seq<u8>,
    read_sequence: Sequence,
)
    requires
        0 <= count < sources.len(),
    ensures
        taken(sources.take(count + 1), key, read_sequence) == match (
            sources[count].latest,
            taken(sources.take(count), key, read_sequence),
        ) {
            (Some(latest), Some(current)) if latest.0 <= current.key.sequence.0 => Some(current),
            _ => newer(
                taken(sources.take(count), key, read_sequence),
                newest_in(sources[count].records, key, read_sequence),
            ),
        },
{
    assert(sources.take(count + 1).drop_last() =~= sources.take(count));
}

proof fn taken_is_of_key(sources: Seq<PointSource>, key: Seq<u8>, read_sequence: Sequence)
    ensures
        taken(sources, key, read_sequence) matches Some(record) ==> record.visible_to(
            key,
            read_sequence,
        ),
    decreases sources.len(),
{
    if sources.len() > 0 {
        taken_is_of_key(sources.drop_last(), key, read_sequence);
        let last = sources.last().records;
        if newest_in(last, key, read_sequence) is Some {
            assert(newest_of(
                last.to_set(),
                key,
                read_sequence,
                true,
                newest_in(last, key, read_sequence)->0,
            ));
        }
    }
}

/// One table more is one source more.
proof fn one_more_table_source(
    snapshot: &LsmPointReadSnapshot,
    count: int,
    key: Seq<u8>,
    read_sequence: Sequence,
)
    requires
        0 <= count < snapshot.version.tables@.len(),
    ensures
        ({
            let first = snapshot.memory.point_sources().len() + count;
            let met = taken(snapshot.point_sources().take(first), key, read_sequence);
            &&& met is Some ==> met->0.key.user_key == key
            &&& taken(snapshot.point_sources().take(first + 1), key, read_sequence) == newer(
                met,
                newest_in(snapshot.version.tables@[count].records@, key, read_sequence),
            )
        }),
{
    let sources = snapshot.point_sources();
    let first = snapshot.memory.point_sources().len() + count;
    one_more_source(sources, first, key, read_sequence);
    taken_is_of_key(sources.take(first), key, read_sequence);
    assert(sources[first] == table_sources(snapshot.version.tables@)[count]);
}

proof fn one_more_run(runs: Seq<Seq<Record>>, count: int)
    requires
        0 <= count < runs.len(),
    ensures
        first_runs(runs, count + 1) == first_runs(runs, count).union(runs[count].to_set()),
{
    let more = first_runs(runs, count + 1);
    let joined = first_runs(runs, count).union(runs[count].to_set());
    assert forall|record: Record| #[trigger] more.contains(record) <==> joined.contains(record) by {
        if more.contains(record) {
            let i = choose|i: int| 0 <= i < count + 1 && (#[trigger] runs[i]).contains(record);
            if i < count {
                assert(first_runs(runs, count).contains(record));
            }
        }
        if first_runs(runs, count).contains(record) {
            let i = choose|i: int| 0 <= i < count && (#[trigger] runs[i]).contains(record);
            assert(runs[i].contains(record));
        }
        if runs[count].to_set().contains(record) {
            assert(runs[count].contains(record));
        }
    }
    assert(more =~= joined);
}

/// Where every source that holds a record of a commit holds them all, no commit is split.
pub proof fn commits_are_whole(runs: Seq<Seq<Record>>, key: Seq<u8>, read_sequence: Sequence)
    requires
        forall|i: int, j: int, a: Record, b: Record|
            #![trigger runs[i].contains(a), runs[j].contains(b)]
            0 <= i < runs.len() && 0 <= j < runs.len() && runs[i].contains(a) && runs[j].contains(b)
                && a.visible_to(key, read_sequence) && b.visible_to(key, read_sequence)
                && a.key.sequence == b.key.sequence ==> exists|c: Record| #[trigger]
                runs[i].contains(c) && c.key == b.key,
    ensures
        whole_commits(runs, key, read_sequence),
{
    reveal(whole_commits);
}

/// Where no run splits a commit, a run with one record of a commit for a user key
/// has each record that another run holds of that commit for the key.
pub proof fn commit_is_whole(
    runs: Seq<Seq<Record>>,
    key: Seq<u8>,
    read_sequence: Sequence,
    i: int,
    j: int,
    a: Record,
    b: Record,
) -> (c: Record)
    requires
        whole_commits(runs, key, read_sequence),
        0 <= i < runs.len(),
        0 <= j < runs.len(),
        runs[i].contains(a),
        runs[j].contains(b),
        a.visible_to(key, read_sequence),
        b.visible_to(key, read_sequence),
        a.key.sequence == b.key.sequence,
    ensures
        runs[i].contains(c),
        c.key == b.key,
{
    reveal(whole_commits);
    choose|c: Record| #[trigger] runs[i].contains(c) && c.key == b.key
}

proof fn skipped_delta_is_settled(
    memory: &MemorySources,
    j: int,
    candidate: Option<PointRecordCandidate>,
    key: Seq<u8>,
    read_sequence: Sequence,
)
    requires
        memory.wf(),
        0 <= j < memory.delta_snapshot.deltas@.len(),
        candidate is Some,
        memory.delta_snapshot.deltas@[j].sequence.0 <= candidate->0.internal_key@.sequence.0,
        candidate_of(
            candidate,
            first_runs(memory.runs(), 1 + memory.immutable_memtables@.len() + j),
            key,
            read_sequence,
            whole_commits(memory.runs(), key, read_sequence),
        ),
    ensures
        candidate_of(
            candidate,
            first_runs(memory.runs(), 1 + memory.immutable_memtables@.len() + j).union(
                memory.runs()[1 + memory.immutable_memtables@.len() + j].to_set(),
            ),
            key,
            read_sequence,
            whole_commits(memory.runs(), key, read_sequence),
        ),
{
    internal_key::record_order_facts();
    let runs = memory.runs();
    let strict = whole_commits(runs, key, read_sequence);
    let at = 1 + memory.immutable_memtables@.len() + j;
    let seen = first_runs(runs, at);
    let delta = memory.delta_snapshot.deltas@[j];
    assert(runs[at] == delta.memtable@);
    let added = runs[at].to_set();
    let current = candidate->0;
    let record = choose|record: Record| #[trigger]
        newest_of(seen, key, read_sequence, strict, record) && record.key == current.internal_key@
            && value_of(record) == source_view(current.value);
    assert(seen.contains(record));
    let from = choose|i: int| 0 <= i < at && (#[trigger] runs[i]).contains(record);
    assert forall|other: Record| #[trigger]
        added.contains(other) && other.visible_to(key, read_sequence) implies settled(
        other.key,
        current.internal_key@,
        strict,
    ) by {
        assert(runs[at].contains(other));
        assert(other.key.sequence.0 <= delta.sequence.0);
        if strict && other.key.lt(record.key) {
            let twin = commit_is_whole(runs, key, read_sequence, from, at, record, other);
            assert(seen.contains(twin));
        }
    }
    candidate_skips(candidate, seen, added, key, read_sequence, strict);
}

/// The in-memory records are those of the runs.
proof fn runs_hold_memory(memory: &MemorySources)
    ensures
        forall|record: Record| #[trigger]
            first_runs(memory.runs(), memory.runs().len() as int).contains(record)
                <==> memory.has_record(record),
{
    let runs = memory.runs();
    let queued = memory.immutable_memtables@.len();
    assert forall|record: Record| #[trigger]
        first_runs(runs, runs.len() as int).contains(record) <==> memory.has_record(record) by {
        if first_runs(runs, runs.len() as int).contains(record) {
            let i = choose|i: int| 0 <= i < runs.len() && (#[trigger] runs[i]).contains(record);
            if i == 0 {
            } else if i <= queued {
                assert(memory.immutable_memtables@[i - 1].memtable@.contains(record));
            } else {
                assert(memory.delta_snapshot.deltas@[i - 1 - queued].memtable@.contains(record));
            }
        }
        if memory.active_memtable@.contains(record) {
            assert(runs[0].contains(record));
        }
        if memory.queued_record(record) {
            let i = choose|i: int|
                0 <= i < queued && (#[trigger] memory.immutable_memtables@[i]).memtable@.contains(
                    record,
                );
            assert(runs[i + 1].contains(record));
        }
        if memory.delta_snapshot.has_record(record) {
            let i = choose|i: int|
                0 <= i < memory.delta_snapshot.deltas@.len() && (
                #[trigger] memory.delta_snapshot.deltas@[i]).memtable@.contains(record);
            assert(runs[i + 1 + queued].contains(record));
        }
    }
}

spec fn with_tables(memory: MemorySources, tables: Seq<Arc<Table>>, count: int) -> Set<Record> {
    Set::new(
        |record: Record|
            memory.has_record(record) || exists|i: int|
                0 <= i < count && (#[trigger] tables[i]).records@.contains(record),
    )
}

proof fn one_more_table(memory: MemorySources, tables: Seq<Arc<Table>>, count: int)
    requires
        0 <= count < tables.len(),
    ensures
        with_tables(memory, tables, count + 1) == with_tables(memory, tables, count).union(
            tables[count].records@.to_set(),
        ),
{
    let more = with_tables(memory, tables, count + 1);
    let joined = with_tables(memory, tables, count).union(
        tables[count].records@.to_set(),
    );
    assert forall|record: Record| #[trigger] more.contains(record) <==> joined.contains(record) by {
        if more.contains(record) && !memory.has_record(record) {
            let i = choose|i: int|
                0 <= i < count + 1 && (#[trigger] tables[i]).records@.contains(record);
            if i < count {
                assert(with_tables(memory, tables, count).contains(record));
            }
        }
        if with_tables(memory, tables, count).contains(record) && !memory.has_record(record) {
            let i = choose|i: int|
                0 <= i < count && (#[trigger] tables[i]).records@.contains(record);
            assert(tables[i].records@.contains(record));
        }
        if tables[count].records@.to_set().contains(record) {
            assert(tables[count].records@.contains(record));
        }
    }
    assert(more =~= joined);
}

/// Finds the newest visible record of a snapshot.
pub fn newest_visible_point_candidate(
    snapshot: &LsmPointReadSnapshot,
    key: &[u8],
    read_sequence: Sequence,
) -> (candidate: Option<PointRecordCandidate>)
    requires
        snapshot.wf(),
    ensures
        candidate_of(
            candidate,
            snapshot.records(),
            key@,
            read_sequence,
            snapshot.whole_commits(key@, read_sequence),
        ),
        candidate_is(candidate, snapshot.takes(key@, read_sequence)),
{
    let ghost memory = snapshot.memory;
    let ghost in_memory = snapshot.memory.point_sources().len() as int;
    let ghost tables = snapshot.version.tables@;
    let ghost strict = snapshot.whole_commits(key@, read_sequence);
    let mut candidate: Option<PointRecordCandidate> =
        newest_visible_memtable_point_candidate_in_snapshot(
        &snapshot.memory,
        key,
        read_sequence,
    );
    proof {
        runs_hold_memory(&memory);
        assert(first_runs(memory.runs(), memory.runs().len() as int) =~= with_tables(
            memory,
            tables,
            0,
        ));
        assert(snapshot.point_sources().take(in_memory) =~= memory.point_sources());
    }
    let count: usize = snapshot.version.tables.len();
    let mut i: usize = 0;
    while i < count
        invariant
            snapshot.wf(),
            memory == snapshot.memory,
            tables == snapshot.version.tables@,
            count == snapshot.version.tables@.len(),
            i <= count,
            candidate_of(
                candidate,
                with_tables(memory, tables, i as int),
                key@,
                read_sequence,
                strict,
            ),
            in_memory == snapshot.memory.point_sources().len(),
            candidate_is(
                candidate,
                taken(snapshot.point_sources().take(in_memory + i), key@, read_sequence),
            ),
        decreases count - i,
    {
        proof {
            one_more_table_source(snapshot, i as int, key@, read_sequence);
        }
        keep_newest_visible_table_point_candidate(
            &mut candidate,
            &snapshot.version.tables[i],
            key,
            read_sequence,
        );
        proof {
            one_more_table(memory, tables, i as int);
        }
        i += 1;
    }
    proof {
        assert(with_tables(memory, tables, count as int) =~= snapshot.records());
        assert(snapshot.point_sources().take(in_memory + count) =~= snapshot.point_sources());
    }
    candidate
}

/// Turns the newest visible record into what the read finds.
pub fn resolve_point_candidate(
    snapshot: &LsmPointReadSnapshot,
    memtable_range_tombstones: &RangeTombstoneIndex,
    key: &[u8],
    candidate: Option<PointRecordCandidate>,
    read_sequence: Sequence,
) -> (result: Result<Option<PointValueSource>>)
    requires
        snapshot.wf(),
        memtable_range_tombstones.wf(),
        forall|tombstone: Tombstone| #[trigger]
            memtable_range_tombstones@.contains(tombstone) <==> snapshot.memory.has_tombstone(
                tombstone,
            ),
        candidate_of(
            candidate,
            snapshot.records(),
            key@,
            read_sequence,
            snapshot.whole_commits(key@, read_sequence),
        ),
        candidate_is(candidate, snapshot.takes(key@, read_sequence)),
    ensures
        snapshot.answers(key@, read_sequence, result),
        match result {
            Ok(found) => snapshot.finds(key@, read_sequence, source_view(found)),
            Err(error) => snapshot.breaks(key@, read_sequence) && error.says(
                ErrorKind::Corruption,
                "put record is missing value bytes"@,
            ),
        },
{
    let ghost whole = candidate;
    match candidate {
        None => Ok(None),
        Some(candidate) => {
            let ghost record = choose|record: Record| #[trigger]
                newest_of(
                    snapshot.records(),
                    key@,
                    read_sequence,
                    snapshot.whole_commits(key@, read_sequence),
                    record,
                ) && record.key == candidate.internal_key@ && value_of(record) == source_view(
                    candidate.value,
                );
            assert(snapshot.decides(key@, read_sequence, record));
            let ghost took = snapshot.takes(key@, read_sequence)->0;
            if candidate.internal_key.kind() != ValueKind::Put {
                return Ok(None);
            }
            let covered: bool = covers_candidate(
                snapshot,
                memtable_range_tombstones,
                key,
                &candidate.internal_key,
                read_sequence,
            );
            proof {
                assert(covered == snapshot.covers(record, read_sequence));
                assert(covered == snapshot.covers(took, read_sequence));
            }
            if covered {
                return Ok(None);
            }
            match candidate.value {
                Some(value) => Ok(Some(value)),
                None => Err(Error::corruption("put record is missing value bytes")),
            }
        },
    }
}

/// Tells whether a range deletion of the snapshot covers the record with this key.
fn covers_candidate(
    snapshot: &LsmPointReadSnapshot,
    memtable_range_tombstones: &RangeTombstoneIndex,
    key: &[u8],
    internal_key: &InternalKey,
    read_sequence: Sequence,
) -> (covered: bool)
    requires
        memtable_range_tombstones.wf(),
        internal_key@.user_key == key@,
        forall|tombstone: Tombstone| #[trigger]
            memtable_range_tombstones@.contains(tombstone) <==> snapshot.memory.has_tombstone(
                tombstone,
            ),
    ensures
        forall|record: Record|
            record.key == internal_key@ ==> covered == #[trigger] snapshot.covers(
                record,
                read_sequence,
            ),
{
    let sequence: Sequence = internal_key.sequence();
    let batch_index: u32 = internal_key.batch_index();
    if memtable_range_tombstones.covers_visible_point(key, sequence, batch_index, read_sequence) {
        proof {
            let list = memtable_range_tombstones@;
            let i = choose|i: int|
                0 <= i < list.len() && (#[trigger] list[i]).covers(
                    key@,
                    sequence,
                    batch_index,
                    read_sequence,
                );
            assert(list.contains(list[i]));
            assert(snapshot.memory.has_tombstone(list[i]));
        }
        return true;
    }
    assert forall|tombstone: Tombstone|
        snapshot.memory.has_tombstone(tombstone) implies !(#[trigger] tombstone.covers(
        key@,
        sequence,
        batch_index,
        read_sequence,
    )) by {
        assert(memtable_range_tombstones@.contains(tombstone));
        let list = memtable_range_tombstones@;
        let i = choose|i: int| 0 <= i < list.len() && list[i] == tombstone;
        assert(!list[i].covers(key@, sequence, batch_index, read_sequence));
    }
    let count: usize = snapshot.version.tables.len();
    let mut i: usize = 0;
    while i < count
        invariant
            count == snapshot.version.tables@.len(),
            i <= count,
            internal_key@.user_key == key@,
            sequence == internal_key@.sequence,
            batch_index == internal_key@.batch_index,
            forall|j: int|
                0 <= j < i ==> !range_tombstone::any_covers(
                    (#[trigger] snapshot.version.tables@[j]).tombstones(),
                    key@,
                    sequence,
                    batch_index,
                    read_sequence,
                ),
        decreases count - i,
    {
        if snapshot.version.tables[i].range_tombstone_covers_visible_point(
            key,
            sequence,
            batch_index,
            read_sequence,
        ) {
            proof {
                let list = snapshot.version.tables@[i as int].tombstones();
                let k = choose|k: int|
                    0 <= k < list.len() && (#[trigger] list[k]).covers(
                        key@,
                        sequence,
                        batch_index,
                        read_sequence,
                    );
                assert(list.contains(list[k]));
                assert(snapshot.version.has_tombstone(list[k]));
            }
            return true;
        }
        i += 1;
    }
    assert forall|tombstone: Tombstone|
        snapshot.version.has_tombstone(tombstone) implies !(#[trigger] tombstone.covers(
        key@,
        sequence,
        batch_index,
        read_sequence,
    )) by {
        let t = choose|t: int|
            0 <= t < count && (#[trigger] snapshot.version.tables@[t]).tombstones().contains(
                tombstone,
            );
        let list = snapshot.version.tables@[t].tombstones();
        let k = choose|k: int| 0 <= k < list.len() && list[k] == tombstone;
        if list[k].covers(key@, sequence, batch_index, read_sequence) {
            assert(range_tombstone::any_covers(
                list,
                key@,
                sequence,
                batch_index,
                read_sequence,
            ));
        }
    }
    false
}

/// Reads one key from a snapshot.
pub fn read_visible_point_value_in_snapshot(
    snapshot: &LsmPointReadSnapshot,
    key: &[u8],
    read_sequence: Sequence,
) -> (result: Result<Option<PointValueSource>>)
    requires
        snapshot.wf(),
    ensures
        snapshot.answers(key@, read_sequence, result),
        match result {
            Ok(found) => snapshot.finds(key@, read_sequence, source_view(found)),
            Err(error) => snapshot.breaks(key@, read_sequence) && error.says(
                ErrorKind::Corruption,
                "put record is missing value bytes"@,
            ),
        },
{
    // A point read needs exactly one newest visible internal record for the
    // user key, then a tombstone coverage check for that candidate.
    let candidate: Option<PointRecordCandidate> = newest_visible_point_candidate(
        snapshot,
        key,
        read_sequence,
    );
    let tombstones: RangeTombstoneIndex = snapshot.memory.memtable_range_tombstones();
    resolve_point_candidate(snapshot, &tombstones, key, candidate, read_sequence)
}

/// Reads many keys from a snapshot; equal keys are looked up once.
pub fn read_visible_point_values_in_snapshot(
    snapshot: &LsmPointReadSnapshot,
    keys: &Vec<Vec<u8>>,
    read_sequence: Sequence,
) -> (result: Result<Vec<Option<PointValueSource>>>)
    requires
        snapshot.wf(),
    ensures
        snapshot.answers_all(keys@, read_sequence, result),
        match result {
            Ok(values) => {
                &&& values@.len() == keys@.len()
                &&& forall|i: int|
                    0 <= i < keys@.len() ==> snapshot.finds(
                        (#[trigger] keys@[i])@,
                        read_sequence,
                        source_view(values@[i]),
                    )
            },
            Err(error) => {
                &&& exists|i: int|
                    0 <= i < keys@.len() && snapshot.breaks((#[trigger] keys@[i])@, read_sequence)
                &&& error.says(ErrorKind::Corruption, "put record is missing value bytes"@)
            },
        },
{
    if keys.len() == 0 {
        return Ok(Vec::new());
    }
    if batch::point_read_batch_prefers_single_key_path(keys) {
        let mut values: Vec<Option<PointValueSource>> = Vec::with_capacity(keys.len());
        let mut i: usize = 0;
        while i < keys.len()
            invariant
                snapshot.wf(),
                i <= keys@.len(),
                values@.len() == i,
                forall|j: int|
                    0 <= j < i ==> snapshot.finds(
                        (#[trigger] keys@[j])@,
                        read_sequence,
                        source_view(values@[j]),
                    ),
                forall|j: int|
                    0 <= j < i ==> snapshot.answers(
                        (#[trigger] keys@[j])@,
                        read_sequence,
                        Ok(values@[j]),
                    ),
            decreases keys@.len() - i,
        {
            match read_visible_point_value_in_snapshot(
                snapshot,
                keys[i].as_slice(),
                read_sequence,
            ) {
                Ok(found) => {
                    values.push(found);
                },
                Err(error) => {
                    return Err(error);
                },
            }
            i += 1;
        }
        return Ok(values);
    }
    let batch: PointReadBatch = PointReadBatch::from_keys(keys);
    let candidates: Vec<Option<PointRecordCandidate>> = batch_candidates(
        snapshot,
        keys,
        &batch,
        read_sequence,
    );
    let tombstones: RangeTombstoneIndex = snapshot.memory.memtable_range_tombstones();
    let mut rest: Vec<Option<PointRecordCandidate>> = candidates;
    let mut unique_values: Vec<Option<PointValueSource>> = Vec::with_capacity(
        batch.unique_keys.len(),
    );
    let mut backward: Vec<Option<PointValueSource>> = Vec::with_capacity(batch.unique_keys.len());
    while rest.len() > 0
        invariant
            snapshot.wf(),
            batch.wf(keys@),
            tombstones.wf(),
            forall|tombstone: Tombstone| #[trigger]
                tombstones@.contains(tombstone) <==> snapshot.memory.has_tombstone(tombstone),
            rest@.len() + backward@.len() == batch.unique_keys@.len(),
            forall|u: int|
                0 <= u < rest@.len() ==> candidate_of(
                    #[trigger] rest@[u],
                    snapshot.records(),
                    keys@[batch.unique_keys@[u] as int]@,
                    read_sequence,
                    snapshot.whole_commits(keys@[batch.unique_keys@[u] as int]@, read_sequence),
                ) && candidate_is(
                    rest@[u],
                    snapshot.takes(keys@[batch.unique_keys@[u] as int]@, read_sequence),
                ),
            forall|b: int|
                0 <= b < backward@.len() ==> snapshot.finds(
                    keys@[batch.unique_keys@[batch.unique_keys@.len() - 1 - b] as int]@,
                    read_sequence,
                    source_view(#[trigger] backward@[b]),
                ) && snapshot.answers(
                    keys@[batch.unique_keys@[batch.unique_keys@.len() - 1 - b] as int]@,
                    read_sequence,
                    Ok(backward@[b]),
                ),
        decreases rest@.len(),
    {
        let u: usize = rest.len() - 1;
        let candidate: Option<PointRecordCandidate> = rest.pop().unwrap();
        let at: usize = batch.unique_keys[u];
        match resolve_point_candidate(
            snapshot,
            &tombstones,
            keys[at].as_slice(),
            candidate,
            read_sequence,
        ) {
            Ok(found) => {
                backward.push(found);
            },
            Err(error) => {
                assert(snapshot.breaks(keys@[at as int]@, read_sequence));
                assert(snapshot.answers(keys@[at as int]@, read_sequence, Err(error)));
                return Err(error);
            },
        }
    }
    while backward.len() > 0
        invariant
            batch.wf(keys@),
            unique_values@.len() + backward@.len() == batch.unique_keys@.len(),
            forall|u: int|
                0 <= u < unique_values@.len() ==> snapshot.finds(
                    keys@[batch.unique_keys@[u] as int]@,
                    read_sequence,
                    source_view(#[trigger] unique_values@[u]),
                ) && snapshot.answers(
                    keys@[batch.unique_keys@[u] as int]@,
                    read_sequence,
                    Ok(unique_values@[u]),
                ),
            forall|b: int|
                0 <= b < backward@.len() ==> snapshot.finds(
                    keys@[batch.unique_keys@[batch.unique_keys@.len() - 1 - b] as int]@,
                    read_sequence,
                    source_view(#[trigger] backward@[b]),
                ) && snapshot.answers(
                    keys@[batch.unique_keys@[batch.unique_keys@.len() - 1 - b] as int]@,
                    read_sequence,
                    Ok(backward@[b]),
                ),
        decreases backward@.len(),
    {
        unique_values.push(backward.pop().unwrap());
    }
    let values: Vec<Option<PointValueSource>> = batch.scatter(&unique_values, Ghost(keys@));
    proof {
        assert forall|i: int| 0 <= i < keys@.len() implies snapshot.finds(
            (#[trigger] keys@[i])@,
            read_sequence,
            source_view(values@[i]),
        ) && snapshot.answers(keys@[i]@, read_sequence, Ok(values@[i])) by {
            let u = batch.unit_of(keys@, i);
            assert(snapshot.finds(
                keys@[batch.unique_keys@[u] as int]@,
                read_sequence,
                source_view(unique_values@[u]),
            ));
        }
    }
    Ok(values)
}

/// Finds the newest visible record for each unique key of a batch, visiting each
/// table once.
fn batch_candidates(
    snapshot: &LsmPointReadSnapshot,
    keys: &Vec<Vec<u8>>,
    batch: &PointReadBatch,
    read_sequence: Sequence,
) -> (candidates: Vec<Option<PointRecordCandidate>>)
    requires
        snapshot.wf(),
        batch.wf(keys@),
    ensures
        candidates@.len() == batch.unique_keys@.len(),
        forall|u: int|
            0 <= u < candidates@.len() ==> candidate_of(
                #[trigger] candidates@[u],
                snapshot.records(),
                keys@[batch.unique_keys@[u] as int]@,
                read_sequence,
                snapshot.whole_commits(keys@[batch.unique_keys@[u] as int]@, read_sequence),
            ) && candidate_is(
                candidates@[u],
                snapshot.takes(keys@[batch.unique_keys@[u] as int]@, read_sequence),
            ),
{
    let ghost in_memory = snapshot.memory.point_sources().len() as int;
    let ghost memory = snapshot.memory;
    let ghost tables = snapshot.version.tables@;
    let mut candidates: Vec<Option<PointRecordCandidate>> = Vec::with_capacity(
        batch.unique_keys.len(),
    );
    proof {
        runs_hold_memory(&memory);
        assert(first_runs(memory.runs(), memory.runs().len() as int) =~= with_tables(
            memory,
            tables,
            0,
        ));
        assert(snapshot.point_sources().take(in_memory) =~= memory.point_sources());
    }
    let units: usize = batch.unique_keys.len();
    let mut u: usize = 0;
    while u < units
        invariant
            snapshot.wf(),
            batch.wf(keys@),
            memory == snapshot.memory,
            first_runs(memory.runs(), memory.runs().len() as int) == with_tables(
                memory,
                tables,
                0,
            ),
            units == batch.unique_keys@.len(),
            u <= units,
            candidates@.len() == u,
            forall|v: int|
                0 <= v < u ==> candidate_of(
                    #[trigger] candidates@[v],
                    with_tables(memory, tables, 0),
                    keys@[batch.unique_keys@[v] as int]@,
                    read_sequence,
                    snapshot.whole_commits(
                        keys@[batch.unique_keys@[v] as int]@,
                        read_sequence,
                    ),
                ) && candidate_is(
                    candidates@[v],
                    taken(
                        snapshot.point_sources().take(in_memory),
                        keys@[batch.unique_keys@[v] as int]@,
                        read_sequence,
                    ),
                ),
            in_memory == snapshot.memory.point_sources().len(),
            snapshot.point_sources().take(in_memory) == memory.point_sources(),
        decreases units - u,
    {
        let at: usize = batch.unique_keys[u];
        candidates.push(
            newest_visible_memtable_point_candidate_in_snapshot(
                &snapshot.memory,
                keys[at].as_slice(),
                read_sequence,
            ),
        );
        u += 1;
    }
    let count: usize = snapshot.version.tables.len();
    let mut i: usize = 0;
    while i < count
        invariant
            snapshot.wf(),
            batch.wf(keys@),
            memory == snapshot.memory,
            tables == snapshot.version.tables@,
            count == snapshot.version.tables@.len(),
            units == batch.unique_keys@.len(),
            i <= count,
            candidates@.len() == units,
            forall|v: int|
                0 <= v < units ==> candidate_of(
                    #[trigger] candidates@[v],
                    with_tables(memory, tables, i as int),
                    keys@[batch.unique_keys@[v] as int]@,
                    read_sequence,
                    snapshot.whole_commits(
                        keys@[batch.unique_keys@[v] as int]@,
                        read_sequence,
                    ),
                ) && candidate_is(
                    candidates@[v],
                    taken(
                        snapshot.point_sources().take(in_memory + i),
                        keys@[batch.unique_keys@[v] as int]@,
                        read_sequence,
                    ),
                ),
            in_memory == snapshot.memory.point_sources().len(),
        decreases count - i,
    {
        proof {
            one_more_table(memory, tables, i as int);
        }
        let mut v: usize = 0;
        while v < units
            invariant
                snapshot.wf(),
                batch.wf(keys@),
                memory == snapshot.memory,
                tables == snapshot.version.tables@,
                i < snapshot.version.tables@.len(),
                with_tables(memory, tables, i + 1) == with_tables(
                    memory,
                    tables,
                    i as int,
                ).union(tables[i as int].records@.to_set()),
                units == batch.unique_keys@.len(),
                v <= units,
                candidates@.len() == units,
                forall|w: int|
                    0 <= w < v ==> candidate_of(
                        #[trigger] candidates@[w],
                        with_tables(memory, tables, i + 1),
                        keys@[batch.unique_keys@[w] as int]@,
                        read_sequence,
                        snapshot.whole_commits(
                            keys@[batch.unique_keys@[w] as int]@,
                            read_sequence,
                        ),
                    ) && candidate_is(
                        candidates@[w],
                        taken(
                            snapshot.point_sources().take(in_memory + i + 1),
                            keys@[batch.unique_keys@[w] as int]@,
                            read_sequence,
                        ),
                    ),
                forall|w: int|
                    v <= w < units ==> candidate_of(
                        #[trigger] candidates@[w],
                        with_tables(memory, tables, i as int),
                        keys@[batch.unique_keys@[w] as int]@,
                        read_sequence,
                        snapshot.whole_commits(
                            keys@[batch.unique_keys@[w] as int]@,
                            read_sequence,
                        ),
                    ) && candidate_is(
                        candidates@[w],
                        taken(
                            snapshot.point_sources().take(in_memory + i),
                            keys@[batch.unique_keys@[w] as int]@,
                            read_sequence,
                        ),
                    ),
                in_memory == snapshot.memory.point_sources().len(),
            decreases units - v,
        {
            let at: usize = batch.unique_keys[v];
            proof {
                one_more_table_source(snapshot, i as int, keys@[at as int]@, read_sequence);
            }
            let mut candidate: Option<PointRecordCandidate> = None;
            std::mem::swap(&mut candidate, &mut candidates[v]);
            keep_newest_visible_table_point_candidate(
                &mut candidate,
                &snapshot.version.tables[i],
                keys[at].as_slice(),
                read_sequence,
            );
            std::mem::swap(&mut candidate, &mut candidates[v]);
            v += 1;
        }
        i += 1;
    }
    proof {
        assert(with_tables(memory, tables, count as int) =~= snapshot.records());
        assert(snapshot.point_sources().take(in_memory + count) =~= snapshot.point_sources());
    }
    candidates
}

/// Two reads of a key from one snapshot give back the same.
pub proof fn reads_are_repeatable(
    snapshot: LsmPointReadSnapshot,
    key: Seq<u8>,
    read_sequence: Sequence,
    first: Result<Option<PointValueSource>>,
    second: Result<Option<PointValueSource>>,
)
    requires
        snapshot.answers(key, read_sequence, first),
        snapshot.answers(key, read_sequence, second),
    ensures
        same_answer(first, second),
{
}

/// A read of many keys gives back what reads of each key from the same snapshot give back, and
/// fails exactly where one of those fails.
pub proof fn batch_read_is_single_reads(
    snapshot: LsmPointReadSnapshot,
    keys: Seq<Vec<u8>>,
    read_sequence: Sequence,
    batch: Result<Vec<Option<PointValueSource>>>,
    singles: Seq<Result<Option<PointValueSource>>>,
)
    requires
        snapshot.answers_all(keys, read_sequence, batch),
        singles.len() == keys.len(),
        forall|i: int|
            0 <= i < keys.len() ==> snapshot.answers(
                (#[trigger] keys[i])@,
                read_sequence,
                singles[i],
            ),
    ensures
        match batch {
            Ok(values) => values@.len() == keys.len() && forall|i: int|
                0 <= i < keys.len() ==> same_answer(#[trigger] singles[i], Ok(values@[i])),
            Err(error) => exists|i: int|
                0 <= i < keys.len() && same_answer(#[trigger] singles[i], Err(error)),
        },
{
    match batch {
        Ok(values) => {
            assert forall|i: int| 0 <= i < keys.len() implies same_answer(
                #[trigger] singles[i],
                Ok(values@[i]),
            ) by {
                assert(snapshot.answers(keys[i]@, read_sequence, singles[i]));
            }
        },
        Err(error) => {
            let i = choose|i: int|
                0 <= i < keys.len() && snapshot.answers(
                    (#[trigger] keys[i])@,
                    read_sequence,
                    Err(error),
                );
            assert(same_answer(singles[i], Err(error)));
        },
    }
}

} // verus!
