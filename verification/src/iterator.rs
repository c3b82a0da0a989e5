//! Forward and reverse iterators over committed rows.
use std::sync::Arc;
use vstd::prelude::*;
use vstd::slice::slice_to_vec;

use crate::blob;
use crate::bytes_order;
use crate::error::{Error, ErrorKind, Result};
use crate::internal_key;
use crate::internal_key::ValueKind;
use crate::memtable;
use crate::memtable::{Memtable, MemtableEntry, Record, RecordRun};
use crate::point_value::{PointValueSource, SourceView};
use crate::range_tombstone;
use crate::range_tombstone::{RangeTombstone, Tombstone};
use crate::selector;
use crate::selector::{Direction, ForwardKeyState, ScanSelector, Selection};
use crate::snapshot::Snapshot;
use crate::table::Table;
use crate::types::{KeyValue, Sequence};

verus! {

/// Sorted records that a scan reads.
#[derive(Debug)]
pub enum SourceRun {
    /// Records of a memtable.
    Memtable(Arc<Memtable>),
    /// Records of a table.
    Table(Arc<Table>),
}

impl Clone for SourceRun {
    fn clone(&self) -> (copy: SourceRun)
        ensures
            copy == *self,
    {
        match self {
            SourceRun::Memtable(memtable) => SourceRun::Memtable(Arc::clone(memtable)),
            SourceRun::Table(table) => SourceRun::Table(Arc::clone(table)),
        }
    }
}

impl SourceRun {
    /// The records.
    pub open spec fn spec_records(&self) -> Seq<Record> {
        match self {
            SourceRun::Memtable(memtable) => memtable@,
            SourceRun::Table(table) => table.records@,
        }
    }

    /// Whether the records are sorted.
    pub open spec fn wf(&self) -> bool {
        match self {
            SourceRun::Memtable(memtable) => memtable.wf(),
            SourceRun::Table(table) => table.wf(),
        }
    }

    fn records(&self) -> (records: &RecordRun)
        requires
            self.wf(),
        ensures
            records@ == self.spec_records(),
            records.wf(),
    {
        match self {
            SourceRun::Memtable(memtable) => memtable.read_entries(),
            SourceRun::Table(table) => &table.records,
        }
    }
}

/// The records of one memtable or table that a scan has still to read.
#[derive(Debug)]
pub struct RecordSource {
    run: SourceRun,
    low: usize,
    high: usize,
    direction: Direction,
}

impl Clone for RecordSource {
    fn clone(&self) -> (copy: RecordSource)
        ensures
            copy == *self,
    {
        RecordSource {
            run: self.run.clone(),
            low: self.low,
            high: self.high,
            direction: self.direction,
        }
    }
}

impl RecordSource {
    /// The records that are still to be read, sorted.
    pub closed spec fn remaining(&self) -> Seq<Record> {
        self.run.spec_records().subrange(self.low as int, self.high as int)
    }

    /// Whether the records are sorted and the window lies inside them.
    pub closed spec fn wf(&self) -> bool {
        &&& self.run.wf()
        &&& memtable::is_sorted(self.run.spec_records())
        &&& self.low <= self.high <= self.run.spec_records().len()
    }

    /// The direction of the scan.
    pub closed spec fn spec_direction(&self) -> Direction {
        self.direction
    }

    /// The user key that comes next.
    pub closed spec fn front(&self) -> Seq<u8> {
        match self.direction {
            Direction::Forward => self.remaining().first().key.user_key,
            Direction::Reverse => self.remaining().last().key.user_key,
        }
    }

    /// Reads the records of a memtable that `selector` selects.
    pub fn memtable(memtable: Arc<Memtable>, selector: &ScanSelector, direction: Direction) -> (source:
        RecordSource)
        requires
            memtable.wf(),
        ensures
            source.wf(),
            source.spec_direction() == direction,
            forall|record: Record| #[trigger]
                source.remaining().contains(record) <==> memtable@.contains(record)
                    && selector@.selects(record.key.user_key),
    {
        proof {
            memtable.wf_facts();
        }
        RecordSource::over(SourceRun::Memtable(memtable), selector, direction)
    }

    /// Reads the records of a table that `selector` selects.
    pub fn table(table: Arc<Table>, selector: &ScanSelector, direction: Direction) -> (source:
        RecordSource)
        requires
            table.wf(),
        ensures
            source.wf(),
            source.spec_direction() == direction,
            forall|record: Record| #[trigger]
                source.remaining().contains(record) <==> table.records@.contains(record)
                    && selector@.selects(record.key.user_key),
    {
        RecordSource::over(SourceRun::Table(table), selector, direction)
    }

    fn over(run: SourceRun, selector: &ScanSelector, direction: Direction) -> (source: RecordSource)
        requires
            run.wf(),
            memtable::is_sorted(run.spec_records()),
        ensures
            source.wf(),
            source.spec_direction() == direction,
            forall|record: Record| #[trigger]
                source.remaining().contains(record) <==> run.spec_records().contains(record)
                    && selector@.selects(record.key.user_key),
    {
        let low: usize = forward_start_index(run.records(), selector);
        let high: usize = forward_end_index(run.records(), selector);
        let ghost whole = run.spec_records();
        proof {
            if low > high {
                assert(selector@.forward_state(whole[high as int].key.user_key)
                    == ForwardKeyState::Before);
            }
        }
        let source = RecordSource { run, low, high, direction };
        proof {
            assert forall|record: Record| #[trigger]
                source.remaining().contains(record) <==> whole.contains(record)
                    && selector@.selects(record.key.user_key) by {
                selector::directions_agree_on_match(selector@, record.key.user_key);
                if source.remaining().contains(record) {
                    let i = choose|i: int|
                        0 <= i < source.remaining().len() && source.remaining()[i] == record;
                    assert(whole[i + low] == record);
                }
                if whole.contains(record) && selector@.selects(record.key.user_key) {
                    let i = choose|i: int| 0 <= i < whole.len() && whole[i] == record;
                    assert(low <= i < high);
                    assert(source.remaining()[i - low] == record);
                }
            }
        }
        source
    }

    /// Returns the user key that comes next.
    pub fn current_key(&self) -> (key: Option<&[u8]>)
        requires
            self.wf(),
        ensures
            match key {
                Some(key) => self.remaining().len() > 0 && key@ == self.front(),
                None => self.remaining().len() == 0,
            },
    {
        if self.low == self.high {
            return None;
        }
        match self.direction {
            Direction::Forward => Some(self.run.records().get(self.low).key.user_key()),
            Direction::Reverse => Some(self.run.records().get(self.high - 1).key.user_key()),
        }
    }

    /// Returns the records of the user key that comes next, and passes them.
    pub fn take_current_group(&mut self) -> (group: Option<Vec<MemtableEntry>>)
        requires
            old(self).wf(),
        ensures
            final(self).wf(),
            final(self).spec_direction() == old(self).spec_direction(),
            match group {
                Some(group) => {
                    &&& old(self).remaining().len() > 0
                    &&& group@.len() > 0
                    &&& final(self).remaining().len() < old(self).remaining().len()
                    &&& forall|record: Record| #[trigger]
                        memtable::records_of(group@).contains(record) <==> old(
                            self,
                        ).remaining().contains(record) && record.key.user_key == old(self).front()
                    &&& forall|record: Record| #[trigger]
                        final(self).remaining().contains(record) <==> old(
                            self,
                        ).remaining().contains(record) && record.key.user_key != old(self).front()
                },
                None => old(self).remaining().len() == 0 && final(self).remaining() == old(
                    self,
                ).remaining(),
            },
    {
        if self.low == self.high {
            return None;
        }
        let ghost whole = self.run.spec_records();
        let ghost before = self.remaining();
        let ghost front = self.front();
        match self.direction {
            Direction::Forward => {
                let low: usize = self.low;
                let high: usize = self.high;
                let mut end: usize = low + 1;
                while end < high
                    invariant
                        self.wf(),
                        whole == self.run.spec_records(),
                        low == self.low,
                        high == self.high,
                        low < end <= high <= whole.len(),
                        forall|i: int|
                            low <= i < end ==> (#[trigger] whole[i]).key.user_key
                                == whole[low as int].key.user_key,
                    ensures
                        low < end <= high,
                        forall|i: int|
                            low <= i < end ==> (#[trigger] whole[i]).key.user_key
                                == whole[low as int].key.user_key,
                        end < high ==> whole[end as int].key.user_key
                            != whole[low as int].key.user_key,
                    decreases high - end,
                {
                    let records = self.run.records();
                    if !bytes_order::bytes_equal(
                        records.get(end).key.user_key(),
                        records.get(low).key.user_key(),
                    ) {
                        break;
                    }
                    end += 1;
                }
                let group: Vec<MemtableEntry> = copy_window(self.run.records(), low, end);
                self.low = end;
                proof {
                    assert(before.first() == whole[low as int]);
                    assert(group@.len() == memtable::records_of(group@).len());
                    split_window(whole, low as int, end as int, high as int, front);
                }
                Some(group)
            },
            Direction::Reverse => {
                let low: usize = self.low;
                let high: usize = self.high;
                let mut start: usize = high - 1;
                while start > low
                    invariant
                        self.wf(),
                        whole == self.run.spec_records(),
                        low == self.low,
                        high == self.high,
                        low <= start < high <= whole.len(),
                        forall|i: int|
                            start <= i < high ==> (#[trigger] whole[i]).key.user_key
                                == whole[high - 1].key.user_key,
                    ensures
                        low <= start < high,
                        forall|i: int|
                            start <= i < high ==> (#[trigger] whole[i]).key.user_key
                                == whole[high - 1].key.user_key,
                        low < start ==> whole[start - 1].key.user_key
                            != whole[high - 1].key.user_key,
                    decreases start,
                {
                    let records = self.run.records();
                    if !bytes_order::bytes_equal(
                        records.get(start - 1).key.user_key(),
                        records.get(high - 1).key.user_key(),
                    ) {
                        break;
                    }
                    start -= 1;
                }
                let group: Vec<MemtableEntry> = copy_window(self.run.records(), start, high);
                self.high = start;
                proof {
                    assert(before.last() == whole[high - 1]);
                    assert(group@.len() == memtable::records_of(group@).len());
                    split_window_reverse(whole, low as int, start as int, high as int, front);
                }
                Some(group)
            },
        }
    }

    /// No record that is still to be read comes before the next user key.
    pub proof fn front_is_first(&self)
        requires
            self.wf(),
        ensures
            forall|record: Record| #[trigger]
                self.remaining().contains(record) ==> !self.spec_direction().visits_before(
                    record.key.user_key,
                    self.front(),
                ),
            self.remaining().len() > 0 ==> exists|record: Record| #[trigger]
                self.remaining().contains(record) && record.key.user_key == self.front(),
    {
        bytes_order::bytes_order_facts();
        let rest = self.remaining();
        let whole = self.run.spec_records();
        assert forall|record: Record| #[trigger]
            rest.contains(record) implies !self.spec_direction().visits_before(
            record.key.user_key,
            self.front(),
        ) by {
            let i = choose|i: int| 0 <= i < rest.len() && rest[i] == record;
            match self.direction {
                Direction::Forward => {
                    if i > 0 {
                        assert(whole[self.low as int].key.lt(whole[self.low + i].key));
                    }
                },
                Direction::Reverse => {
                    if i < rest.len() - 1 {
                        assert(whole[self.low + i].key.lt(whole[self.high - 1].key));
                    }
                },
            }
        }
        if rest.len() > 0 {
            match self.direction {
                Direction::Forward => {
                    assert(rest.contains(rest[0]));
                },
                Direction::Reverse => {
                    assert(rest.contains(rest[rest.len() - 1]));
                },
            }
        }
    }
}

fn copy_window(records: &RecordRun, start: usize, end: usize) -> (copy: Vec<MemtableEntry>)
    requires
        start <= end <= records@.len(),
    ensures
        memtable::records_of(copy@) == records@.subrange(start as int, end as int),
{
    let mut copy: Vec<MemtableEntry> = Vec::with_capacity(end - start);
    let mut i: usize = start;
    while i < end
        invariant
            start <= i <= end <= records@.len(),
            copy.len() == i - start,
            forall|j: int| 0 <= j < i - start ==> (#[trigger] copy@[j])@ == records@[start + j],
        decreases end - i,
    {
        copy.push(records.get(i).clone());
        i += 1;
    }
    proof {
        assert(memtable::records_of(copy@) =~= records@.subrange(start as int, end as int));
    }
    copy
}

proof fn split_window(whole: Seq<Record>, low: int, end: int, high: int, front: Seq<u8>)
    requires
        memtable::is_sorted(whole),
        0 <= low < end <= high <= whole.len(),
        front == whole[low].key.user_key,
        forall|i: int| low <= i < end ==> (#[trigger] whole[i]).key.user_key == front,
        end < high ==> whole[end].key.user_key != front,
    ensures
        forall|record: Record| #[trigger]
            whole.subrange(low, end).contains(record) <==> whole.subrange(low, high).contains(
                record,
            ) && record.key.user_key == front,
        forall|record: Record| #[trigger]
            whole.subrange(end, high).contains(record) <==> whole.subrange(low, high).contains(
                record,
            ) && record.key.user_key != front,
{
    bytes_order::bytes_order_facts();
    let all = whole.subrange(low, high);
    let group = whole.subrange(low, end);
    let rest = whole.subrange(end, high);
    assert forall|i: int| end <= i < high implies (#[trigger] whole[i]).key.user_key != front by {
        assert(whole[low].key.lt(whole[end].key));
        if end < i {
            assert(whole[end].key.lt(whole[i].key));
        }
    }
    window_members(whole, low, high);
    window_members(whole, low, end);
    window_members(whole, end, high);
}

proof fn split_window_reverse(whole: Seq<Record>, low: int, start: int, high: int, front: Seq<u8>)
    requires
        memtable::is_sorted(whole),
        0 <= low <= start < high <= whole.len(),
        front == whole[high - 1].key.user_key,
        forall|i: int| start <= i < high ==> (#[trigger] whole[i]).key.user_key == front,
        low < start ==> whole[start - 1].key.user_key != front,
    ensures
        forall|record: Record| #[trigger]
            whole.subrange(start, high).contains(record) <==> whole.subrange(low, high).contains(
                record,
            ) && record.key.user_key == front,
        forall|record: Record| #[trigger]
            whole.subrange(low, start).contains(record) <==> whole.subrange(low, high).contains(
                record,
            ) && record.key.user_key != front,
{
    bytes_order::bytes_order_facts();
    assert forall|i: int| low <= i < start implies (#[trigger] whole[i]).key.user_key != front by {
        assert(whole[start - 1].key.lt(whole[high - 1].key));
        if i < start - 1 {
            assert(whole[i].key.lt(whole[start - 1].key));
        }
    }
    window_members(whole, low, high);
    window_members(whole, start, high);
    window_members(whole, low, start);
}

proof fn window_members(whole: Seq<Record>, low: int, high: int)
    requires
        0 <= low <= high <= whole.len(),
    ensures
        forall|record: Record| #[trigger]
            whole.subrange(low, high).contains(record) ==> exists|i: int|
                low <= i < high && #[trigger] whole[i] == record,
        forall|i: int| low <= i < high ==> whole.subrange(low, high).contains(#[trigger] whole[i]),
{
    let window = whole.subrange(low, high);
    assert forall|record: Record| #[trigger] window.contains(record) implies exists|i: int|
        low <= i < high && #[trigger] whole[i] == record by {
        let i = choose|i: int| 0 <= i < window.len() && window[i] == record;
        assert(whole[low + i] == record);
    }
    assert forall|i: int| low <= i < high implies window.contains(#[trigger] whole[i]) by {
        assert(window[i - low] == whole[i]);
    }
}

/// Returns the number of records that come before the selected ones.
fn forward_start_index(records: &RecordRun, selector: &ScanSelector) -> (index: usize)
    requires
        records.wf(),
    ensures
        index <= records@.len(),
        forall|i: int|
            0 <= i < index ==> selector@.forward_state((#[trigger] records@[i]).key.user_key)
                == ForwardKeyState::Before,
        forall|i: int|
            index <= i < records@.len() ==> selector@.forward_state(
                (#[trigger] records@[i]).key.user_key,
            ) != ForwardKeyState::Before,
{
    let mut low: usize = 0;
    let mut high: usize = records.len();
    while low < high
        invariant
            low <= high <= records@.len(),
            records.wf(),
            forall|i: int|
                0 <= i < low ==> selector@.forward_state((#[trigger] records@[i]).key.user_key)
                    == ForwardKeyState::Before,
            forall|i: int|
                high <= i < records@.len() ==> selector@.forward_state(
                    (#[trigger] records@[i]).key.user_key,
                ) != ForwardKeyState::Before,
        decreases high - low,
    {
        let middle: usize = low + (high - low) / 2;
        let state = selector.forward_key_state(records.get(middle).key.user_key());
        if state == ForwardKeyState::Before {
            assert forall|i: int| 0 <= i <= middle implies selector@.forward_state(
                (#[trigger] records@[i]).key.user_key,
            ) == ForwardKeyState::Before by {
                sorted_users_are_ordered(records@, i, middle as int);
                selector::forward_state_is_monotone(
                    selector@,
                    records@[i].key.user_key,
                    records@[middle as int].key.user_key,
                );
            }
            low = middle + 1;
        } else {
            assert forall|i: int| middle <= i < records@.len() implies selector@.forward_state(
                (#[trigger] records@[i]).key.user_key,
            ) != ForwardKeyState::Before by {
                sorted_users_are_ordered(records@, middle as int, i);
                selector::forward_state_is_monotone(
                    selector@,
                    records@[middle as int].key.user_key,
                    records@[i].key.user_key,
                );
            }
            high = middle;
        }
    }
    low
}

/// Returns the number of records that come before or among the selected ones.
fn forward_end_index(records: &RecordRun, selector: &ScanSelector) -> (index: usize)
    requires
        records.wf(),
    ensures
        index <= records@.len(),
        forall|i: int|
            0 <= i < index ==> selector@.forward_state((#[trigger] records@[i]).key.user_key)
                != ForwardKeyState::After,
        forall|i: int|
            index <= i < records@.len() ==> selector@.forward_state(
                (#[trigger] records@[i]).key.user_key,
            ) == ForwardKeyState::After,
{
    let mut low: usize = 0;
    let mut high: usize = records.len();
    while low < high
        invariant
            low <= high <= records@.len(),
            records.wf(),
            forall|i: int|
                0 <= i < low ==> selector@.forward_state((#[trigger] records@[i]).key.user_key)
                    != ForwardKeyState::After,
            forall|i: int|
                high <= i < records@.len() ==> selector@.forward_state(
                    (#[trigger] records@[i]).key.user_key,
                ) == ForwardKeyState::After,
        decreases high - low,
    {
        let middle: usize = low + (high - low) / 2;
        let state = selector.forward_key_state(records.get(middle).key.user_key());
        if state == ForwardKeyState::After {
            assert forall|i: int| middle <= i < records@.len() implies selector@.forward_state(
                (#[trigger] records@[i]).key.user_key,
            ) == ForwardKeyState::After by {
                sorted_users_are_ordered(records@, middle as int, i);
                selector::forward_state_is_monotone(
                    selector@,
                    records@[middle as int].key.user_key,
                    records@[i].key.user_key,
                );
            }
            high = middle;
        } else {
            assert forall|i: int| 0 <= i <= middle implies selector@.forward_state(
                (#[trigger] records@[i]).key.user_key,
            ) != ForwardKeyState::After by {
                sorted_users_are_ordered(records@, i, middle as int);
                selector::forward_state_is_monotone(
                    selector@,
                    records@[i].key.user_key,
                    records@[middle as int].key.user_key,
                );
            }
            low = middle + 1;
        }
    }
    low
}

proof fn sorted_users_are_ordered(records: Seq<Record>, i: int, j: int)
    requires
        memtable::is_sorted(records),
        0 <= i <= j < records.len(),
    ensures
        bytes_order::bytes_le(records[i].key.user_key, records[j].key.user_key),
{
    if i < j {
        assert(records[i].key.lt(records[j].key));
    }
}

/// The next user key of one source, as the merge of the sources sees it.
#[derive(Debug)]
pub struct SourceHeapEntry {
    /// User key that comes next in the source.
    pub user_key: Vec<u8>,
    /// Position of the source.
    pub source_index: usize,
    /// Direction of the scan.
    pub direction: Direction,
}

/// Mathematical form of a [`SourceHeapEntry`].
pub struct HeapItem {
    /// User key that comes next in the source.
    pub user_key: Seq<u8>,
    /// Position of the source.
    pub source_index: usize,
}

impl View for SourceHeapEntry {
    type V = HeapItem;

    open spec fn view(&self) -> HeapItem {
        HeapItem { user_key: self.user_key@, source_index: self.source_index }
    }
}

impl HeapItem {
    /// Whether this item leaves the heap before `other`.
    pub open spec fn leaves_before(self, other: HeapItem, direction: Direction) -> bool {
        ||| direction.visits_before(self.user_key, other.user_key)
        ||| self.user_key == other.user_key && self.source_index < other.source_index
    }
}

proof fn leaving_order_facts(direction: Direction)
    ensures
        forall|a: HeapItem, b: HeapItem| #[trigger]
            a.leaves_before(b, direction) ==> !b.leaves_before(a, direction),
        forall|a: HeapItem, b: HeapItem, c: HeapItem|
            !(#[trigger] b.leaves_before(a, direction)) && !(#[trigger] c.leaves_before(
                b,
                direction,
            )) ==> !c.leaves_before(a, direction),
{
    bytes_order::bytes_order_facts();
}

/// Entries ordered by when they leave: the next one is the last of the list.
#[derive(Debug)]
pub struct SourceHeap {
    entries: Vec<SourceHeapEntry>,
    direction: Direction,
}

impl View for SourceHeap {
    type V = Seq<HeapItem>;

    closed spec fn view(&self) -> Seq<HeapItem> {
        Seq::new(self.entries@.len(), |i: int| self.entries@[i]@)
    }
}

impl Clone for SourceHeap {
    fn clone(&self) -> (copy: SourceHeap)
        ensures
            copy@ == self@,
            copy.spec_direction() == self.spec_direction(),
    {
        let mut entries: Vec<SourceHeapEntry> = Vec::with_capacity(self.entries.len());
        let mut i: usize = 0;
        while i < self.entries.len()
            invariant
                i <= self.entries@.len(),
                entries@.len() == i,
                forall|j: int| 0 <= j < i ==> (#[trigger] entries@[j])@ == self.entries@[j]@,
            decreases self.entries@.len() - i,
        {
            let entry = &self.entries[i];
            entries.push(
                SourceHeapEntry {
                    user_key: slice_to_vec(entry.user_key.as_slice()),
                    source_index: entry.source_index,
                    direction: entry.direction,
                },
            );
            i += 1;
        }
        let copy = SourceHeap { entries, direction: self.direction };
        proof {
            assert(copy@ =~= self@);
        }
        copy
    }
}

impl SourceHeap {
    /// The direction of the scan.
    pub closed spec fn spec_direction(&self) -> Direction {
        self.direction
    }

    /// Whether every entry leaves after those behind it.
    pub open spec fn wf(&self) -> bool {
        forall|i: int, j: int|
            0 <= i < j < self@.len() ==> !(#[trigger] self@[i]).leaves_before(
                #[trigger] self@[j],
                self.spec_direction(),
            )
    }

    /// Builds an empty heap.
    pub fn new(direction: Direction) -> (heap: SourceHeap)
        ensures
            heap.wf(),
            heap@.len() == 0,
            heap.spec_direction() == direction,
    {
        SourceHeap { entries: Vec::new(), direction }
    }

    /// Adds an entry.
    pub fn push(&mut self, entry: SourceHeapEntry)
        requires
            old(self).wf(),
        ensures
            final(self).wf(),
            final(self).spec_direction() == old(self).spec_direction(),
            exists|i: int|
                0 <= i <= old(self)@.len() && final(self)@ == #[trigger] old(self)@.insert(
                    i,
                    entry@,
                ),
    {
        let ghost before = self@;
        let ghost added = entry@;
        let ghost direction = self.direction;
        let mut index: usize = self.entries.len();
        proof {
            leaving_order_facts(direction);
        }
        while index > 0
            invariant
                index <= before.len(),
                self@ == before,
                self.direction == direction,
                before.len() == self.entries@.len(),
                added == entry@,
                forall|i: int|
                    index <= i < before.len() ==> (#[trigger] before[i]).leaves_before(
                        added,
                        direction,
                    ),
            ensures
                index <= before.len(),
                forall|i: int|
                    index <= i < before.len() ==> (#[trigger] before[i]).leaves_before(
                        added,
                        direction,
                    ),
                index > 0 ==> !before[index - 1].leaves_before(added, direction),
            decreases index,
        {
            assert(self.entries@[index - 1]@ == before[index - 1]);
            let other = &self.entries[index - 1];
            let leaves: bool = selector::compare_scan_keys(
                other.user_key.as_slice(),
                entry.user_key.as_slice(),
                self.direction,
            ) || (bytes_order::bytes_equal(other.user_key.as_slice(), entry.user_key.as_slice())
                && other.source_index < entry.source_index);
            if !leaves {
                break;
            }
            index -= 1;
        }
        self.entries.insert(index, entry);
        proof {
            let after = before.insert(index as int, added);
            assert(self@ =~= after);
            assert forall|i: int, j: int| 0 <= i < j < after.len() implies !(#[trigger]
            after[i]).leaves_before(#[trigger] after[j], direction) by {
                if j < index {
                } else if j == index {
                    if i < index - 1 {
                        assert(!before[i].leaves_before(before[index - 1], direction));
                    }
                } else if i < index {
                    assert(after[j] == before[j - 1]);
                } else if i == index {
                    assert(after[j] == before[j - 1]);
                    assert(before[j - 1].leaves_before(added, direction));
                } else {
                    assert(after[i] == before[i - 1]);
                    assert(after[j] == before[j - 1]);
                }
            }
        }
    }

    /// Removes and returns the entry that leaves next.
    pub fn pop(&mut self) -> (entry: Option<SourceHeapEntry>)
        requires
            old(self).wf(),
        ensures
            final(self).wf(),
            final(self).spec_direction() == old(self).spec_direction(),
            match entry {
                Some(entry) => {
                    &&& old(self)@.len() > 0
                    &&& entry@ == old(self)@.last()
                    &&& final(self)@ == old(self)@.drop_last()
                },
                None => old(self)@.len() == 0 && final(self)@ == old(self)@,
            },
    {
        let ghost before = self@;
        let entry: Option<SourceHeapEntry> = self.entries.pop();
        proof {
            if before.len() > 0 {
                assert(self@ =~= before.drop_last());
            } else {
                assert(self@ =~= before);
            }
        }
        entry
    }

    /// Tells whether the entry that leaves next is for `key`.
    pub fn next_is(&self, key: &[u8]) -> (is: bool)
        ensures
            is == (self@.len() > 0 && self@.last().user_key == key@),
    {
        if self.entries.len() == 0 {
            return false;
        }
        let last: usize = self.entries.len() - 1;
        assert(self.entries@[last as int]@ == self@[last as int]);
        bytes_order::bytes_equal(self.entries[last].user_key.as_slice(), key)
    }
}

/// Whether a scan at `read_sequence` takes the record into account for `key`.
pub open spec fn scan_sees(record: Record, key: Seq<u8>, read_sequence: Sequence) -> bool {
    record.visible_to(key, read_sequence) && record.key.kind != ValueKind::RangeDelete
}

/// Whether `record` is the newest one that a scan takes into account for `key`.
pub open spec fn scan_newest(
    records: Set<Record>,
    key: Seq<u8>,
    read_sequence: Sequence,
    record: Record,
) -> bool {
    &&& records.contains(record)
    &&& scan_sees(record, key, read_sequence)
    &&& forall|other: Record| #[trigger]
        records.contains(other) && scan_sees(other, key, read_sequence) ==> !other.key.lt(
            record.key,
        )
}

/// Whether a scan shows `key` with the value of `record`.
pub open spec fn scan_shows(
    records: Set<Record>,
    tombstones: Seq<Tombstone>,
    key: Seq<u8>,
    read_sequence: Sequence,
    record: Record,
) -> bool {
    &&& scan_newest(records, key, read_sequence, record)
    &&& record.key.kind == ValueKind::Put
    &&& !range_tombstone::any_covers(
        tombstones,
        key,
        record.key.sequence,
        record.key.batch_index,
        read_sequence,
    )
}

/// Whether a scan shows `key`.
pub open spec fn scan_shows_key(
    records: Set<Record>,
    tombstones: Seq<Tombstone>,
    key: Seq<u8>,
    read_sequence: Sequence,
) -> bool {
    exists|record: Record| scan_shows(records, tombstones, key, read_sequence, record)
}

/// One row of a scan whose value may still be in blob storage.
#[derive(Debug)]
pub struct ScanRow {
    /// User key.
    pub key: Vec<u8>,
    /// Value, or its place.
    pub value: PointValueSource,
}

/// A merge of sorted sources that shows each visible row once, in key order.
#[derive(Debug)]
pub struct LazyScan {
    direction: Direction,
    read_sequence: Sequence,
    read_pin: Snapshot,
    range_tombstones: Vec<RangeTombstone>,
    sources: Vec<RecordSource>,
    heap: SourceHeap,
}

impl Clone for LazyScan {
    fn clone(&self) -> (copy: LazyScan)
        ensures
            same_scan(copy, *self),
            copy.wf() == self.wf(),
    {
        let mut sources: Vec<RecordSource> = Vec::with_capacity(self.sources.len());
        let mut i: usize = 0;
        while i < self.sources.len()
            invariant
                i <= self.sources@.len(),
                sources@ == self.sources@.take(i as int),
            decreases self.sources@.len() - i,
        {
            sources.push(self.sources[i].clone());
            i += 1;
            proof {
                assert(sources@ =~= self.sources@.take(i as int));
            }
        }
        proof {
            assert(sources@ =~= self.sources@);
        }
        LazyScan {
            direction: self.direction,
            read_sequence: self.read_sequence,
            read_pin: self.read_pin,
            range_tombstones: range_tombstone::clone_tombstones(&self.range_tombstones),
            sources,
            heap: self.heap.clone(),
        }
    }
}

/// Whether two scans have the same left to show.
pub open spec fn same_scan(a: LazyScan, b: LazyScan) -> bool {
    &&& a.pending() == b.pending()
    &&& a.tombstones() == b.tombstones()
    &&& a.spec_read_sequence() == b.spec_read_sequence()
    &&& a.spec_direction() == b.spec_direction()
}

/// Whether two lists hold the same rows in the same order.
pub open spec fn same_rows(a: Seq<KeyValue>, b: Seq<KeyValue>) -> bool {
    &&& a.len() == b.len()
    &&& forall|i: int|
        0 <= i < a.len() ==> (#[trigger] a[i]).key@ == b[i].key@ && a[i].value@ == b[i].value@
}

/// The records of all sources together.
pub open spec fn union_of(sources: Seq<RecordSource>) -> Set<Record> {
    Set::new(
        |record: Record|
            exists|i: int|
                0 <= i < sources.len() && (#[trigger] sources[i]).remaining().contains(record),
    )
}

spec fn remaining_total(sources: Seq<RecordSource>) -> nat
    decreases sources.len(),
{
    if sources.len() == 0 {
        0
    } else {
        remaining_total(sources.drop_last()) + sources.last().remaining().len()
    }
}

proof fn remaining_total_shrinks(a: Seq<RecordSource>, b: Seq<RecordSource>, at: int)
    requires
        a.len() == b.len(),
        0 <= at < a.len(),
        forall|i: int| 0 <= i < a.len() && i != at ==> a[i] == b[i],
        b[at].remaining().len() < a[at].remaining().len(),
    ensures
        remaining_total(b) < remaining_total(a),
    decreases a.len(),
{
    if at == a.len() - 1 {
        assert(a.drop_last() =~= b.drop_last());
    } else {
        remaining_total_shrinks(a.drop_last(), b.drop_last(), at);
    }
}

impl LazyScan {
    /// The records that are still to be read.
    pub closed spec fn pending(&self) -> Set<Record> {
        union_of(self.sources@)
    }

    /// The range deletions that apply.
    pub closed spec fn tombstones(&self) -> Seq<Tombstone> {
        range_tombstone::tombstones_of(self.range_tombstones@)
    }

    /// The sequence that rows are read at.
    pub closed spec fn spec_read_sequence(&self) -> Sequence {
        self.read_sequence
    }

    /// The direction of the scan.
    pub closed spec fn spec_direction(&self) -> Direction {
        self.direction
    }

    spec fn sources_wf(&self) -> bool {
        forall|i: int|
            0 <= i < self.sources@.len() ==> (#[trigger] self.sources@[i]).wf()
                && self.sources@[i].spec_direction() == self.direction
    }

    spec fn item_fits(&self, item: HeapItem) -> bool {
        &&& item.source_index < self.sources@.len()
        &&& self.sources@[item.source_index as int].remaining().len() > 0
        &&& item.user_key == self.sources@[item.source_index as int].front()
    }

    spec fn heap_lists(&self, index: int) -> bool {
        exists|j: int| 0 <= j < self.heap@.len() && (#[trigger] self.heap@[j]).source_index == index
    }

    /// Whether the heap has one entry, with its next key, for each source that has
    /// records left, except for the source at `skipped`.
    spec fn heap_fits(&self, skipped: int) -> bool {
        &&& self.heap.wf()
        &&& self.heap.spec_direction() == self.direction
        &&& forall|j: int|
            0 <= j < self.heap@.len() ==> self.item_fits(#[trigger] self.heap@[j])
                && self.heap@[j].source_index != skipped
        &&& forall|i: int, j: int|
            0 <= i < j < self.heap@.len() ==> (#[trigger] self.heap@[i]).source_index != (
            #[trigger] self.heap@[j]).source_index
        &&& forall|i: int|
            #![trigger self.sources@[i]]
            0 <= i < self.sources@.len() && i != skipped && self.sources@[i].remaining().len() > 0
                ==> self.heap_lists(i)
    }

    /// Whether the heap lists exactly the sources that have records left.
    pub closed spec fn wf(&self) -> bool {
        self.sources_wf() && self.heap_fits(-1)
    }

    /// Starts a scan over `sources`.
    pub fn new(direction: Direction, input: ScanSourceInput) -> (scan: LazyScan)
        requires
            forall|i: int|
                0 <= i < input.sources@.len() ==> (#[trigger] input.sources@[i]).wf()
                    && input.sources@[i].spec_direction() == direction,
        ensures
            scan.wf(),
            scan.spec_direction() == direction,
            scan.spec_read_sequence() == input.read_sequence,
            scan.pending() == union_of(input.sources@),
            scan.tombstones() == range_tombstone::tombstones_of(input.range_tombstones@),
    {
        let mut scan = LazyScan {
            direction,
            read_sequence: input.read_sequence,
            read_pin: input.read_pin,
            range_tombstones: input.range_tombstones,
            sources: input.sources,
            heap: SourceHeap::new(direction),
        };
        let mut i: usize = 0;
        while i < scan.sources.len()
            invariant
                i <= scan.sources.len(),
                scan.sources_wf(),
                scan.heap.wf(),
                scan.heap.spec_direction() == scan.direction,
                scan.direction == direction,
                scan.read_sequence == input.read_sequence,
                scan.sources == input.sources,
                scan.range_tombstones == input.range_tombstones,
                forall|j: int|
                    0 <= j < scan.heap@.len() ==> scan.item_fits(#[trigger] scan.heap@[j])
                        && scan.heap@[j].source_index < i,
                forall|a: int, b: int|
                    0 <= a < b < scan.heap@.len() ==> (#[trigger] scan.heap@[a]).source_index != (
                    #[trigger] scan.heap@[b]).source_index,
                forall|j: int|
                    #![trigger scan.sources@[j]]
                    0 <= j < i && scan.sources@[j].remaining().len() > 0 ==> scan.heap_lists(j),
            decreases scan.sources.len() - i,
        {
            let ghost before = scan;
            let key: Option<Vec<u8>> = match scan.sources[i].current_key() {
                Some(key) => Some(slice_to_vec(key)),
                None => None,
            };
            if let Some(user_key) = key {
                let entry = SourceHeapEntry { user_key, source_index: i, direction };
                let ghost item = entry@;
                scan.heap.push(entry);
                proof {
                    let at = choose|at: int|
                        0 <= at <= before.heap@.len() && scan.heap@
                            == #[trigger] before.heap@.insert(at, item);
                    inserted_items(before.heap@, at, item);
                    assert(scan.heap@[at].source_index == i);
                    assert forall|j: int|
                        #![trigger scan.sources@[j]]
                        0 <= j < i + 1 && scan.sources@[j].remaining().len() > 0 implies scan.heap_lists(
                        j,
                    ) by {
                        if j < i {
                            assert(before.heap_lists(j));
                            let k = choose|k: int|
                                0 <= k < before.heap@.len() && (
                                #[trigger] before.heap@[k]).source_index == j;
                            assert(scan.heap@[if k < at {
                                k
                            } else {
                                k + 1
                            }].source_index == j);
                        }
                    }
                }
            }
            i += 1;
        }
        scan
    }

    /// The next entry of the heap is for the first of the pending user keys.
    proof fn heap_front_is_first(&self)
        requires
            self.wf(),
        ensures
            self.heap@.len() == 0 <==> self.pending() =~= Set::<Record>::empty(),
            self.heap@.len() > 0 ==> {
                &&& forall|record: Record| #[trigger]
                    self.pending().contains(record) ==> !self.direction.visits_before(
                        record.key.user_key,
                        self.heap@.last().user_key,
                    )
                &&& exists|record: Record| #[trigger]
                    self.pending().contains(record) && record.key.user_key
                        == self.heap@.last().user_key
            },
    {
        bytes_order::bytes_order_facts();
        assert forall|record: Record| #[trigger]
            self.pending().contains(record) implies self.heap@.len() > 0
            && !self.direction.visits_before(record.key.user_key, self.heap@.last().user_key) by {
            let i = choose|i: int|
                0 <= i < self.sources@.len() && (#[trigger] self.sources@[i]).remaining().contains(
                    record,
                );
            assert(self.heap_lists(i));
            let j = choose|j: int|
                0 <= j < self.heap@.len() && (#[trigger] self.heap@[j]).source_index == i;
            self.sources@[i].front_is_first();
            assert(self.item_fits(self.heap@[j]));
            let top = self.heap@.len() - 1;
            if j < top {
                assert(!self.heap@[j].leaves_before(self.heap@[top], self.direction));
            }
        }
        if self.heap@.len() > 0 {
            let item = self.heap@.last();
            assert(self.item_fits(self.heap@[self.heap@.len() - 1]));
            let source = self.sources@[item.source_index as int];
            source.front_is_first();
            let record = choose|record: Record| #[trigger]
                source.remaining().contains(record) && record.key.user_key == source.front();
            assert(self.pending().contains(record));
        } else {
            assert(self.pending() =~= Set::<Record>::empty());
        }
    }

    /// Takes the records that one source has for the first pending user key.
    #[verifier::rlimit(40)]
    fn take_next_group(&mut self) -> (taken: Option<(Vec<u8>, Vec<MemtableEntry>)>)
        requires
            old(self).wf(),
        ensures
            final(self).wf(),
            final(self).direction == old(self).direction,
            final(self).read_sequence == old(self).read_sequence,
            final(self).range_tombstones == old(self).range_tombstones,
            match taken {
                None => old(self).heap@.len() == 0 && final(self).pending() == old(self).pending(),
                Some((key, group)) => {
                    &&& old(self).heap@.len() > 0
                    &&& key@ == old(self).heap@.last().user_key
                    &&& group@.len() > 0
                    &&& forall|i: int|
                        0 <= i < group@.len() ==> (#[trigger] group@[i])@.key.user_key == key@
                    &&& forall|record: Record| #[trigger]
                        old(self).pending().contains(record) <==> final(self).pending().contains(
                            record,
                        ) || memtable::records_of(group@).contains(record)
                    &&& remaining_total(final(self).sources@) < remaining_total(old(self).sources@)
                },
            },
    {
        proof {
            self.heap_front_is_first();
        }
        let ghost start = *self;
        let popped: Option<SourceHeapEntry> = self.heap.pop();
        match popped {
            None => None,
            Some(entry) => {
                let index: usize = entry.source_index;
                let ghost middle = *self;
                proof {
                    assert(start.item_fits(start.heap@[start.heap@.len() - 1]));
                    assert forall|i: int|
                        #![trigger middle.sources@[i]]
                        0 <= i < middle.sources@.len() && i != index
                            && middle.sources@[i].remaining().len() > 0 implies middle.heap_lists(
                        i,
                    ) by {
                        assert(start.heap_lists(i));
                        let j = choose|j: int|
                            0 <= j < start.heap@.len() && (#[trigger] start.heap@[j]).source_index
                                == i;
                        assert(middle.heap@[j].source_index == i);
                    }
                    assert(middle.heap_fits(index as int));
                }
                let group: Option<Vec<MemtableEntry>> = self.sources[index].take_current_group();
                let ghost after = *self;
                proof {
                    assert(after.sources@ =~= middle.sources@.update(
                        index as int,
                        after.sources@[index as int],
                    ));
                    remaining_total_shrinks(middle.sources@, after.sources@, index as int);
                    assert(after.heap_fits(index as int)) by {
                        assert forall|i: int|
                            #![trigger after.sources@[i]]
                            0 <= i < after.sources@.len() && i != index
                                && after.sources@[i].remaining().len() > 0 implies after.heap_lists(
                            i,
                        ) by {
                            assert(middle.sources@[i] == after.sources@[i]);
                            assert(middle.heap_lists(i));
                            let j = choose|j: int|
                                0 <= j < middle.heap@.len() && (
                                #[trigger] middle.heap@[j]).source_index == i;
                            assert(after.heap@[j].source_index == i);
                        }
                        assert forall|j: int| 0 <= j < after.heap@.len() implies after.item_fits(
                            #[trigger] after.heap@[j],
                        ) && after.heap@[j].source_index != index by {
                            assert(middle.item_fits(middle.heap@[j]));
                        }
                    }
                }
                let records: Vec<MemtableEntry> = group.unwrap();
                self.relist(index);
                proof {
                    let source = start.sources@[index as int];
                    let left = after.sources@[index as int];
                    assert forall|i: int| 0 <= i < records@.len() implies (
                    #[trigger] records@[i])@.key.user_key == entry.user_key@ by {
                        assert(memtable::records_of(records@)[i] == records@[i]@);
                        assert(memtable::records_of(records@).contains(
                            memtable::records_of(records@)[i],
                        ));
                    }
                    assert forall|record: Record| #[trigger]
                        start.pending().contains(record) <==> self.pending().contains(record)
                            || memtable::records_of(records@).contains(record) by {
                        if start.pending().contains(record) {
                            let i = choose|i: int|
                                0 <= i < start.sources@.len() && (
                                #[trigger] start.sources@[i]).remaining().contains(record);
                            assert(after.sources@[i].remaining().contains(record)
                                || memtable::records_of(records@).contains(record));
                        }
                        if self.pending().contains(record) {
                            let i = choose|i: int|
                                0 <= i < after.sources@.len() && (
                                #[trigger] after.sources@[i]).remaining().contains(record);
                            assert(start.sources@[i].remaining().contains(record));
                        }
                        if memtable::records_of(records@).contains(record) {
                            assert(start.sources@[index as int].remaining().contains(record));
                        }
                    }
                }
                Some((entry.user_key, records))
            },
        }
    }

    /// Lists the source at `index` in the heap again, if it has records left.
    fn relist(&mut self, index: usize)
        requires
            old(self).sources_wf(),
            index < old(self).sources@.len(),
            old(self).heap_fits(index as int),
        ensures
            final(self).wf(),
            final(self).direction == old(self).direction,
            final(self).read_sequence == old(self).read_sequence,
            final(self).range_tombstones == old(self).range_tombstones,
            final(self).sources == old(self).sources,
    {
        let ghost before = *self;
        let key: Option<Vec<u8>> = match self.sources[index].current_key() {
            Some(key) => Some(slice_to_vec(key)),
            None => None,
        };
        match key {
            Some(user_key) => {
                let entry = SourceHeapEntry {
                    user_key,
                    source_index: index,
                    direction: self.direction,
                };
                let ghost item = entry@;
                self.heap.push(entry);
                proof {
                    let at = choose|at: int|
                        0 <= at <= before.heap@.len() && self.heap@
                            == #[trigger] before.heap@.insert(at, item);
                    inserted_items(before.heap@, at, item);
                    assert forall|i: int|
                        #![trigger self.sources@[i]]
                        0 <= i < self.sources@.len() && i != -1
                            && self.sources@[i].remaining().len() > 0 implies self.heap_lists(
                        i,
                    ) by {
                        if i == index {
                            assert(self.heap@[at].source_index == i);
                        } else {
                            assert(before.heap_lists(i));
                            let k = choose|k: int|
                                0 <= k < before.heap@.len() && (
                                #[trigger] before.heap@[k]).source_index == i;
                            assert(self.heap@[if k < at {
                                k
                            } else {
                                k + 1
                            }].source_index == i);
                        }
                    }
                    assert forall|j: int| 0 <= j < self.heap@.len() implies self.item_fits(
                        #[trigger] self.heap@[j],
                    ) && self.heap@[j].source_index != -1 by {
                        if j < at {
                            assert(before.item_fits(before.heap@[j]));
                        } else if j > at {
                            assert(before.item_fits(before.heap@[j - 1]));
                        }
                    }
                }
            },
            None => {
                proof {
                    assert forall|i: int|
                        #![trigger self.sources@[i]]
                        0 <= i < self.sources@.len() && i != -1
                            && self.sources@[i].remaining().len() > 0 implies self.heap_lists(
                        i,
                    ) by {
                        assert(before.heap_lists(i));
                    }
                    assert forall|j: int| 0 <= j < self.heap@.len() implies self.item_fits(
                        #[trigger] self.heap@[j],
                    ) && self.heap@[j].source_index != -1 by {
                        assert(before.item_fits(before.heap@[j]));
                    }
                }
            },
        }
    }

    /// Takes every record of the first pending user key.
    fn take_next_key(&mut self) -> (taken: Option<(Vec<u8>, Vec<MemtableEntry>)>)
        requires
            old(self).wf(),
        ensures
            final(self).wf(),
            final(self).direction == old(self).direction,
            final(self).read_sequence == old(self).read_sequence,
            final(self).range_tombstones == old(self).range_tombstones,
            match taken {
                None => old(self).pending() =~= Set::<Record>::empty() && final(self).pending()
                    == old(self).pending(),
                Some((key, group)) => {
                    &&& group@.len() > 0
                    &&& forall|record: Record| #[trigger]
                        old(self).pending().contains(record) ==> !old(
                            self,
                        ).direction.visits_before(record.key.user_key, key@)
                    &&& forall|record: Record| #[trigger]
                        memtable::records_of(group@).contains(record) <==> old(
                            self,
                        ).pending().contains(record) && record.key.user_key == key@
                    &&& forall|record: Record| #[trigger]
                        final(self).pending().contains(record) <==> old(self).pending().contains(
                            record,
                        ) && old(self).direction.visits_before(key@, record.key.user_key)
                    &&& remaining_total(final(self).sources@) < remaining_total(old(self).sources@)
                },
            },
    {
        let ghost start = *self;
        proof {
            self.heap_front_is_first();
            bytes_order::bytes_order_facts();
        }
        let taken: Option<(Vec<u8>, Vec<MemtableEntry>)> = self.take_next_group();
        match taken {
            None => None,
            Some((key, first)) => {
                let mut group: Vec<MemtableEntry> = first;
                while self.heap.next_is(key.as_slice())
                    invariant
                        self.wf(),
                        self.direction == start.direction,
                        self.read_sequence == start.read_sequence,
                        self.range_tombstones == start.range_tombstones,
                        group@.len() > 0,
                        forall|i: int|
                            0 <= i < group@.len() ==> (#[trigger] group@[i])@.key.user_key == key@,
                        forall|record: Record| #[trigger]
                            start.pending().contains(record) <==> self.pending().contains(record)
                                || memtable::records_of(group@).contains(record),
                        remaining_total(self.sources@) < remaining_total(start.sources@),
                    decreases remaining_total(self.sources@),
                {
                    let ghost old_group = group@;
                    let ghost old_pending = self.pending();
                    let more: Option<(Vec<u8>, Vec<MemtableEntry>)> = self.take_next_group();
                    let mut records: Vec<MemtableEntry> = more.unwrap().1;
                    let ghost added = records@;
                    group.append(&mut records);
                    proof {
                        assert forall|record: Record| #[trigger]
                            memtable::records_of(group@).contains(record) <==> memtable::records_of(
                                old_group,
                            ).contains(record) || memtable::records_of(added).contains(record) by {
                            joined_records(old_group, added, record);
                        }
                        assert forall|record: Record| #[trigger]
                            start.pending().contains(record) <==> self.pending().contains(record)
                                || memtable::records_of(group@).contains(record) by {
                            assert(start.pending().contains(record) <==> old_pending.contains(
                                record,
                            ) || memtable::records_of(old_group).contains(record));
                        }
                    }
                }
                proof {
                    self.heap_front_is_first();
                    assert forall|record: Record| #[trigger]
                        memtable::records_of(group@).contains(record) implies record.key.user_key
                        == key@ by {
                        let i = choose|i: int|
                            0 <= i < group@.len() && memtable::records_of(group@)[i] == record;
                        assert(group@[i]@.key.user_key == key@);
                    }
                    assert forall|record: Record| #[trigger]
                        self.pending().contains(record) implies start.direction.visits_before(
                        key@,
                        record.key.user_key,
                    ) by {
                        assert(start.pending().contains(record));
                        let top = self.heap@.last().user_key;
                        let witness = choose|other: Record| #[trigger]
                            self.pending().contains(other) && other.key.user_key == top;
                        assert(start.pending().contains(witness));
                    }
                }
                Some((key, group))
            },
        }
    }

    /// Returns the next visible row.
    pub fn next(&mut self) -> (row: Option<Result<ScanRow>>)
        requires
            old(self).wf(),
        ensures
            final(self).wf(),
            scan_result(*old(self), *final(self), row),
    {
        let ghost start = *self;
        proof {
            bytes_order::bytes_order_facts();
        }
        loop
            invariant
                start == *old(self),
                self.wf(),
                self.direction == start.direction,
                self.read_sequence == start.read_sequence,
                self.range_tombstones == start.range_tombstones,
                forall|record: Record| #[trigger]
                    self.pending().contains(record) ==> start.pending().contains(record),
                forall|a: Record, b: Record|
                    #![trigger start.pending().contains(a), self.pending().contains(b)]
                    start.pending().contains(a) && self.pending().contains(b)
                        && !self.pending().contains(a) ==> start.direction.visits_before(
                        a.key.user_key,
                        b.key.user_key,
                    ),
                forall|record: Record| #[trigger]
                    start.pending().contains(record) && !self.pending().contains(record)
                        ==> !scan_shows_key(
                        start.pending(),
                        start.tombstones(),
                        record.key.user_key,
                        start.read_sequence,
                    ),
            decreases remaining_total(self.sources@),
        {
            let ghost before = *self;
            let taken: Option<(Vec<u8>, Vec<MemtableEntry>)> = self.take_next_key();
            match taken {
                None => {
                    proof {
                        assert forall|key: Seq<u8>| !#[trigger] scan_shows_key(
                            start.pending(),
                            start.tombstones(),
                            key,
                            start.read_sequence,
                        ) by {
                            if scan_shows_key(
                                start.pending(),
                                start.tombstones(),
                                key,
                                start.read_sequence,
                            ) {
                                let record = choose|record: Record|
                                    scan_shows(
                                        start.pending(),
                                        start.tombstones(),
                                        key,
                                        start.read_sequence,
                                        record,
                                    );
                                assert(start.pending().contains(record));
                                assert(!before.pending().contains(record));
                            }
                        }
                    }
                    return None;
                },
                Some((key, group)) => {
                    proof {
                        assert(memtable::records_of(group@).contains(
                            memtable::records_of(group@)[0],
                        ));
                        assert forall|record: Record| #[trigger]
                            memtable::records_of(group@).contains(record)
                                <==> start.pending().contains(record) && record.key.user_key
                                == key@ by {
                            if start.pending().contains(record) && record.key.user_key == key@ {
                                let first = memtable::records_of(group@)[0];
                                assert(before.pending().contains(first));
                                if !before.pending().contains(record) {
                                    assert(start.direction.visits_before(
                                        record.key.user_key,
                                        first.key.user_key,
                                    ));
                                    bytes_order::bytes_order_facts();
                                }
                            }
                        }
                        step_is_exact(start, before, *self, key@);
                    }
                    let ghost first = key@;
                    let row: Option<Result<ScanRow>> = self.visible_item(
                        key,
                        group,
                        Ghost(start.pending()),
                    );
                    proof {
                        if row is Some {
                            assert(self.tombstones() == start.tombstones());
                            assert(scan_step(start, *self, first));
                            if row->0 is Err {
                                let record = choose|record: Record| #[trigger]
                                    scan_shows(
                                        start.pending(),
                                        self.tombstones(),
                                        first,
                                        self.read_sequence,
                                        record,
                                    ) && record.value is None;
                                assert(scan_shows(
                                    start.pending(),
                                    start.tombstones(),
                                    first,
                                    start.spec_read_sequence(),
                                    record,
                                ));
                                assert(scan_breaks_at(start, first));
                            } else {
                                let value = row->0->Ok_0.value@;
                                let record = choose|record: Record| #[trigger]
                                    scan_shows(
                                        start.pending(),
                                        self.tombstones(),
                                        first,
                                        self.read_sequence,
                                        record,
                                    ) && record.value is Some && value == SourceView::of(
                                        record.value->0,
                                    );
                                assert(scan_shows(
                                    start.pending(),
                                    start.tombstones(),
                                    first,
                                    start.spec_read_sequence(),
                                    record,
                                ));
                                assert(scan_finds(start, first, value));
                            }
                            assert(scan_result(start, *self, row));
                        }
                    }
                    match row {
                        Some(item) => {
                            return Some(item);
                        },
                        None => {},
                    }
                },
            }
        }
    }

    /// Returns the row for the records of one user key, if it is visible.
    fn visible_item(
        &self,
        key: Vec<u8>,
        group: Vec<MemtableEntry>,
        Ghost(records): Ghost<Set<Record>>,
    ) -> (row: Option<Result<ScanRow>>)
        requires
            forall|record: Record| #[trigger]
                memtable::records_of(group@).contains(record) <==> records.contains(record)
                    && record.key.user_key == key@,
        ensures
            match row {
                None => !scan_shows_key(records, self.tombstones(), key@, self.read_sequence),
                Some(Ok(row)) => row.key@ == key@ && exists|record: Record| #[trigger]
                    scan_shows(records, self.tombstones(), key@, self.read_sequence, record)
                        && record.value is Some && row.value@ == SourceView::of(record.value->0),
                Some(Err(error)) => {
                    &&& error.says(ErrorKind::Corruption, "put record is missing value bytes"@)
                    &&& exists|record: Record| #[trigger]
                        scan_shows(records, self.tombstones(), key@, self.read_sequence, record)
                            && record.value is None
                },
            },
    {
        let newest: Option<usize> = select_newest(&group, key.as_slice(), self.read_sequence);
        match newest {
            None => {
                proof {
                    if scan_shows_key(records, self.tombstones(), key@, self.read_sequence) {
                        let record = choose|record: Record|
                            scan_shows(
                                records,
                                self.tombstones(),
                                key@,
                                self.read_sequence,
                                record,
                            );
                        assert(memtable::records_of(group@).contains(record));
                    }
                }
                None
            },
            Some(index) => {
                let entry = &group[index];
                let ghost chosen = entry@;
                proof {
                    assert(memtable::records_of(group@)[index as int] == chosen);
                    assert(memtable::records_of(group@).contains(chosen));
                    assert forall|other: Record| #[trigger]
                        records.contains(other) && scan_sees(
                            other,
                            key@,
                            self.read_sequence,
                        ) implies !other.key.lt(chosen.key) by {
                        assert(memtable::records_of(group@).contains(other));
                    }
                    assert(scan_newest(records, key@, self.read_sequence, chosen));
                }
                let shown: bool = entry.key.kind() == ValueKind::Put
                    && !range_tombstone::list_covers(
                    &self.range_tombstones,
                    key.as_slice(),
                    entry.key.sequence(),
                    entry.key.batch_index(),
                    self.read_sequence,
                );
                if !shown {
                    proof {
                        if scan_shows_key(records, self.tombstones(), key@, self.read_sequence) {
                            let record = choose|record: Record|
                                scan_shows(
                                    records,
                                    self.tombstones(),
                                    key@,
                                    self.read_sequence,
                                    record,
                                );
                            newest_keys_agree(records, key@, self.read_sequence, record, chosen);
                        }
                    }
                    return None;
                }
                proof {
                    assert(scan_shows(
                        records,
                        self.tombstones(),
                        key@,
                        self.read_sequence,
                        chosen,
                    ));
                }
                match &entry.value {
                    Some(value) => {
                        let source = PointValueSource::from_value_ref(value.clone());
                        Some(Ok(ScanRow { key, value: source }))
                    },
                    None => Some(Err(Error::corruption("put record is missing value bytes"))),
                }
            },
        }
    }
}

/// Whether a step of the scan passed the keys up to and including `key`, showed
/// none of them before `key`, and left the others.
pub open spec fn scan_step(before: LazyScan, after: LazyScan, key: Seq<u8>) -> bool {
    &&& forall|other: Seq<u8>| #[trigger]
        scan_shows_key(before.pending(), before.tombstones(), other, before.spec_read_sequence())
            ==> !before.spec_direction().visits_before(other, key)
    &&& forall|record: Record| #[trigger]
        after.pending().contains(record) <==> before.pending().contains(record)
            && before.spec_direction().visits_before(key, record.key.user_key)
}

proof fn step_is_exact(start: LazyScan, before: LazyScan, after: LazyScan, key: Seq<u8>)
    requires
        before.direction == start.direction,
        forall|record: Record| #[trigger]
            before.pending().contains(record) ==> start.pending().contains(record),
        forall|a: Record, b: Record|
            #![trigger start.pending().contains(a), before.pending().contains(b)]
            start.pending().contains(a) && before.pending().contains(b)
                && !before.pending().contains(a) ==> start.direction.visits_before(
                a.key.user_key,
                b.key.user_key,
            ),
        forall|record: Record| #[trigger]
            start.pending().contains(record) && !before.pending().contains(record)
                ==> !scan_shows_key(
                start.pending(),
                start.tombstones(),
                record.key.user_key,
                start.read_sequence,
            ),
        forall|record: Record| #[trigger]
            before.pending().contains(record) ==> !start.direction.visits_before(
                record.key.user_key,
                key,
            ),
        exists|record: Record| #[trigger]
            before.pending().contains(record) && record.key.user_key == key,
        forall|record: Record| #[trigger]
            after.pending().contains(record) <==> before.pending().contains(record)
                && start.direction.visits_before(key, record.key.user_key),
    ensures
        scan_step(start, after, key),
        forall|a: Record, b: Record|
            #![trigger start.pending().contains(a), after.pending().contains(b)]
            start.pending().contains(a) && after.pending().contains(b) && !after.pending().contains(
                a,
            ) ==> start.direction.visits_before(a.key.user_key, b.key.user_key),
        forall|record: Record| #[trigger]
            start.pending().contains(record) && !after.pending().contains(record)
                && record.key.user_key != key ==> !scan_shows_key(
                start.pending(),
                start.tombstones(),
                record.key.user_key,
                start.read_sequence,
            ),
{
    bytes_order::bytes_order_facts();
    let first = choose|record: Record| #[trigger]
        before.pending().contains(record) && record.key.user_key == key;
    assert forall|record: Record| #[trigger]
        after.pending().contains(record) <==> start.pending().contains(record)
            && start.direction.visits_before(key, record.key.user_key) by {
        if start.pending().contains(record) && start.direction.visits_before(
            key,
            record.key.user_key,
        ) {
            if !before.pending().contains(record) {
                assert(start.direction.visits_before(record.key.user_key, first.key.user_key));
            }
        }
    }
    assert forall|other: Seq<u8>| #[trigger]
        scan_shows_key(
            start.pending(),
            start.tombstones(),
            other,
            start.read_sequence,
        ) implies !start.direction.visits_before(other, key) by {
        let record = choose|record: Record|
            scan_shows(start.pending(), start.tombstones(), other, start.read_sequence, record);
        assert(start.pending().contains(record));
        assert(record.key.user_key == other);
        if !before.pending().contains(record) {
            assert(false);
        }
    }
    assert forall|a: Record, b: Record|
        #![trigger start.pending().contains(a), after.pending().contains(b)]
        start.pending().contains(a) && after.pending().contains(b) && !after.pending().contains(
            a,
        ) implies start.direction.visits_before(a.key.user_key, b.key.user_key) by {
        if before.pending().contains(a) {
            assert(!start.direction.visits_before(key, a.key.user_key));
        } else {
            assert(before.pending().contains(b));
        }
    }
    assert forall|record: Record| #[trigger]
        start.pending().contains(record) && !after.pending().contains(record)
            && record.key.user_key != key implies !scan_shows_key(
        start.pending(),
        start.tombstones(),
        record.key.user_key,
        start.read_sequence,
    ) by {
        if before.pending().contains(record) {
            assert(start.direction.visits_before(key, record.key.user_key));
        }
    }
}

/// Two newest records of one key have the same record key.
pub proof fn newest_keys_agree(
    records: Set<Record>,
    key: Seq<u8>,
    read_sequence: Sequence,
    a: Record,
    b: Record,
)
    requires
        scan_newest(records, key, read_sequence, a),
        scan_newest(records, key, read_sequence, b),
    ensures
        a.key == b.key,
{
    internal_key::record_order_facts();
    assert(records.contains(a) && records.contains(b));
}

proof fn joined_records(a: Seq<MemtableEntry>, b: Seq<MemtableEntry>, record: Record)
    ensures
        memtable::records_of(a + b).contains(record) <==> memtable::records_of(a).contains(record)
            || memtable::records_of(b).contains(record),
{
    let joined = memtable::records_of(a + b);
    if joined.contains(record) {
        let i = choose|i: int| 0 <= i < joined.len() && joined[i] == record;
        if i < a.len() {
            assert(memtable::records_of(a)[i] == record);
        } else {
            assert(memtable::records_of(b)[i - a.len()] == record);
        }
    }
    if memtable::records_of(a).contains(record) {
        let i = choose|i: int| 0 <= i < a.len() && memtable::records_of(a)[i] == record;
        assert(joined[i] == record);
    }
    if memtable::records_of(b).contains(record) {
        let i = choose|i: int| 0 <= i < b.len() && memtable::records_of(b)[i] == record;
        assert(joined[i + a.len()] == record);
    }
}

proof fn inserted_items(before: Seq<HeapItem>, at: int, item: HeapItem)
    requires
        0 <= at <= before.len(),
    ensures
        before.insert(at, item).len() == before.len() + 1,
        before.insert(at, item)[at] == item,
        forall|j: int| 0 <= j < at ==> before.insert(at, item)[j] == #[trigger] before[j],
        forall|j: int|
            at <= j < before.len() ==> before.insert(at, item)[j + 1] == #[trigger] before[j],
        forall|j: int|
            0 <= j <= before.len() && j != at ==> #[trigger] before.insert(at, item)[j] == before[if j
                < at {
                j
            } else {
                j - 1
            }],
{
}

/// Finds the newest record that a scan takes into account.
fn select_newest(group: &Vec<MemtableEntry>, key: &[u8], read_sequence: Sequence) -> (newest: Option<
    usize,
>)
    ensures
        match newest {
            Some(index) => {
                &&& index < group@.len()
                &&& scan_sees(group@[index as int]@, group@[index as int]@.key.user_key, read_sequence)
                &&& forall|record: Record| #[trigger]
                    memtable::records_of(group@).contains(record) && scan_sees(
                        record,
                        key@,
                        read_sequence,
                    ) ==> !record.key.lt(group@[index as int]@.key)
            },
            None => forall|record: Record| #[trigger]
                memtable::records_of(group@).contains(record) ==> !scan_sees(
                    record,
                    key@,
                    read_sequence,
                ),
        },
{
    proof {
        internal_key::record_order_facts();
    }
    let mut newest: Option<usize> = None;
    let mut i: usize = 0;
    while i < group.len()
        invariant
            i <= group.len(),
            forall|a: internal_key::RecordKey| !#[trigger] a.lt(a),
            forall|
                a: internal_key::RecordKey,
                b: internal_key::RecordKey,
                c: internal_key::RecordKey,
            | #[trigger]
                a.lt(b) && #[trigger] b.lt(c) ==> a.lt(c),
            match newest {
                Some(index) => {
                    &&& index < i
                    &&& scan_sees(group@[index as int]@, group@[index as int]@.key.user_key, read_sequence)
                    &&& forall|j: int|
                        0 <= j < i && scan_sees(
                            #[trigger] group@[j]@,
                            group@[j]@.key.user_key,
                            read_sequence,
                        ) ==> !group@[j]@.key.lt(group@[index as int]@.key)
                },
                None => forall|j: int|
                    0 <= j < i ==> !scan_sees(
                        #[trigger] group@[j]@,
                        group@[j]@.key.user_key,
                        read_sequence,
                    ),
            },
        decreases group.len() - i,
    {
        let entry = &group[i];
        if entry.key.sequence().get() <= read_sequence.get() && entry.key.kind()
            != ValueKind::RangeDelete {
            let replace: bool = match newest {
                Some(index) => entry.key.comes_before(&group[index].key),
                None => true,
            };
            if replace {
                newest = Some(i);
            }
        }
        i += 1;
    }
    proof {
        assert forall|record: Record| #[trigger]
            memtable::records_of(group@).contains(record) implies exists|j: int|
            0 <= j < group@.len() && (#[trigger] group@[j])@ == record by {
            let j = choose|j: int|
                0 <= j < group@.len() && memtable::records_of(group@)[j] == record;
            assert(group@[j]@ == record);
        }
    }
    newest
}

/// What a scan starts from.
#[derive(Debug)]
pub struct ScanSourceInput {
    /// Last commit that the scan sees.
    pub read_sequence: Sequence,
    /// Pin that keeps the state alive while the scan runs.
    pub read_pin: Snapshot,
    /// Range deletions that apply.
    pub range_tombstones: Vec<RangeTombstone>,
    /// Sorted sources to merge.
    pub sources: Vec<RecordSource>,
}

/// Iterator over rows.
#[derive(Debug)]
pub struct Iter {
    direction: Direction,
    inner: IterInner,
}

#[derive(Debug)]
enum IterInner {
    /// Rows in memory; the next one is the last of the list.
    Items(Vec<KeyValue>),
    /// Rows merged from sources.
    Lazy(LazyScan),
}

impl Clone for Iter {
    fn clone(&self) -> (copy: Iter)
        ensures
            copy.wf() == self.wf(),
            copy.spec_direction() == self.spec_direction(),
            match (copy.items(), self.items()) {
                (Some(items), Some(own)) => same_rows(items, own),
                (None, None) => true,
                _ => false,
            },
            match (copy.scan(), self.scan()) {
                (Some(scan), Some(own)) => same_scan(scan, own),
                (None, None) => true,
                _ => false,
            },
    {
        match &self.inner {
            IterInner::Items(items) => {
                let mut rows: Vec<KeyValue> = Vec::with_capacity(items.len());
                let mut i: usize = 0;
                while i < items.len()
                    invariant
                        i <= items@.len(),
                        rows@.len() == i,
                        forall|j: int|
                            0 <= j < i ==> (#[trigger] rows@[j]).key@ == items@[j].key@
                                && rows@[j].value@ == items@[j].value@,
                    decreases items@.len() - i,
                {
                    rows.push(items[i].clone());
                    i += 1;
                }
                Iter { direction: self.direction, inner: IterInner::Items(rows) }
            },
            IterInner::Lazy(scan) => Iter {
                direction: self.direction,
                inner: IterInner::Lazy(scan.clone()),
            },
        }
    }
}

impl Iter {
    /// The rows that an iterator over rows in memory has still to return, in order.
    pub closed spec fn items(&self) -> Option<Seq<KeyValue>> {
        match self.inner {
            IterInner::Items(items) => Some(items@.reverse()),
            IterInner::Lazy(_) => None,
        }
    }

    /// The scan behind an iterator over sources.
    pub closed spec fn scan(&self) -> Option<LazyScan> {
        match self.inner {
            IterInner::Items(_) => None,
            IterInner::Lazy(scan) => Some(scan),
        }
    }

    /// The direction of the iterator.
    pub closed spec fn spec_direction(&self) -> Direction {
        self.direction
    }

    /// Whether the iterator has either rows in memory or a valid scan.
    pub open spec fn wf(&self) -> bool {
        &&& self.items() is Some <==> self.scan() is None
        &&& match self.scan() {
            Some(scan) => scan.wf(),
            None => true,
        }
    }

    /// Returns an iterator without rows.
    pub fn empty(direction: Direction) -> (iter: Iter)
        ensures
            iter.wf(),
            iter.spec_direction() == direction,
            iter.items() == Some(Seq::<KeyValue>::empty()),
    {
        let iter = Iter::from_items(Vec::new(), direction);
        proof {
            assert(Seq::<KeyValue>::empty().reverse() =~= Seq::<KeyValue>::empty());
        }
        iter
    }

    /// Returns an iterator over rows given from the first to the last.
    pub fn from_items(items: Vec<KeyValue>, direction: Direction) -> (iter: Iter)
        ensures
            iter.wf(),
            iter.spec_direction() == direction,
            iter.items() == Some(
                match direction {
                    Direction::Forward => items@,
                    Direction::Reverse => items@.reverse(),
                },
            ),
    {
        match direction {
            Direction::Forward => {
                let ghost whole = items@;
                let mut rest: Vec<KeyValue> = items;
                let mut stack: Vec<KeyValue> = Vec::with_capacity(rest.len());
                while rest.len() > 0
                    invariant
                        rest@.len() + stack@.len() == whole.len(),
                        rest@ == whole.subrange(0, rest@.len() as int),
                        stack@ == whole.subrange(rest@.len() as int, whole.len() as int).reverse(),
                    decreases rest@.len(),
                {
                    let ghost left = rest@.len() - 1;
                    let item: Option<KeyValue> = rest.pop();
                    stack.push(item.unwrap());
                    proof {
                        assert(rest@ =~= whole.subrange(0, left));
                        assert(stack@ =~= whole.subrange(left, whole.len() as int).reverse());
                    }
                }
                proof {
                    assert(stack@.reverse() =~= whole);
                }
                Iter { direction, inner: IterInner::Items(stack) }
            },
            Direction::Reverse => Iter { direction, inner: IterInner::Items(items) },
        }
    }

    /// Returns an iterator that merges sorted sources.
    pub fn from_sources(direction: Direction, input: ScanSourceInput) -> (iter: Iter)
        requires
            forall|i: int|
                0 <= i < input.sources@.len() ==> (#[trigger] input.sources@[i]).wf()
                    && input.sources@[i].spec_direction() == direction,
        ensures
            iter.wf(),
            iter.spec_direction() == direction,
            iter.items() is None,
            match iter.scan() {
                Some(scan) => {
                    &&& scan.spec_direction() == direction
                    &&& scan.spec_read_sequence() == input.read_sequence
                    &&& scan.pending() == union_of(input.sources@)
                    &&& scan.tombstones() == range_tombstone::tombstones_of(
                        input.range_tombstones@,
                    )
                },
                None => false,
            },
    {
        Iter { direction, inner: IterInner::Lazy(LazyScan::new(direction, input)) }
    }

    /// Returns the direction of the iterator.
    pub fn direction(&self) -> (direction: Direction)
        ensures
            direction == self.spec_direction(),
    {
        self.direction
    }

    /// Returns the next row; its value may still be in blob storage.
    pub fn next_row(&mut self) -> (row: Option<Result<ScanRow>>)
        requires
            old(self).wf(),
        ensures
            final(self).wf(),
            final(self).spec_direction() == old(self).spec_direction(),
            match old(self).items() {
                Some(items) => match row {
                    Some(row) => {
                        &&& items.len() > 0
                        &&& row is Ok
                        &&& row->Ok_0.key@ == items[0].key@
                        &&& row->Ok_0.value@ == SourceView::Value(items[0].value@)
                        &&& final(self).items() == Some(items.drop_first())
                    },
                    None => items.len() == 0 && final(self).items() == old(self).items(),
                },
                None => {
                    &&& final(self).items() is None
                    &&& final(self).scan() is Some
                    &&& scan_result(old(self).scan()->0, final(self).scan()->0, row)
                },
            },
    {
        match &mut self.inner {
            IterInner::Items(items) => {
                let ghost before = items@;
                let item: Option<KeyValue> = items.pop();
                proof {
                    if before.len() > 0 {
                        assert(items@.reverse() =~= before.reverse().drop_first());
                    }
                }
                match item {
                    Some(item) => Some(
                        Ok(
                            ScanRow {
                                key: item.key,
                                value: PointValueSource::from_value_ref(
                                    blob::ValueRef::Inline(item.value),
                                ),
                            },
                        ),
                    ),
                    None => None,
                }
            },
            IterInner::Lazy(scan) => scan.next(),
        }
    }

    /// Returns the next row of a database that has no blob storage.
    pub fn next_sync(&mut self) -> (row: Option<Result<KeyValue>>)
        requires
            old(self).wf(),
        ensures
            final(self).wf(),
            final(self).spec_direction() == old(self).spec_direction(),
            match old(self).items() {
                Some(items) => match row {
                    Some(row) => {
                        &&& items.len() > 0
                        &&& row is Ok
                        &&& row->Ok_0.key@ == items[0].key@
                        &&& row->Ok_0.value@ == items[0].value@
                        &&& final(self).items() == Some(items.drop_first())
                    },
                    None => items.len() == 0 && final(self).items() == old(self).items(),
                },
                None => {
                    &&& final(self).items() is None
                    &&& final(self).scan() is Some
                    &&& row_result(old(self).scan()->0, final(self).scan()->0, row)
                },
            },
    {
        let found: Option<Result<ScanRow>> = self.next_row();
        let ghost kept = found;
        let row: Option<Result<KeyValue>> = match found {
            None => None,
            Some(Err(error)) => Some(Err(error)),
            Some(Ok(row)) => match row.value.into_point_value(None) {
                Ok(value) => Some(Ok(KeyValue::new(row.key, value.into_value()))),
                Err(error) => Some(Err(error)),
            },
        };
        proof {
            if old(self).items() is None {
                assert(scan_result(old(self).scan()->0, self.scan()->0, kept) && completes(
                    kept,
                    row,
                ));
            }
        }
        row
    }
}

/// Whether a scan shows a row with this key and value.
pub open spec fn scan_finds(scan: LazyScan, key: Seq<u8>, value: SourceView) -> bool {
    exists|record: Record| #[trigger]
        scan_shows(scan.pending(), scan.tombstones(), key, scan.spec_read_sequence(), record)
            && record.value is Some && value == SourceView::of(record.value->0)
}

/// Whether a scan shows `key` by a record that lacks its value.
pub open spec fn scan_breaks_at(scan: LazyScan, key: Seq<u8>) -> bool {
    exists|record: Record| #[trigger]
        scan_shows(scan.pending(), scan.tombstones(), key, scan.spec_read_sequence(), record)
            && record.value is None
}

/// What one step of a scan may return, given its state before and after.
pub open spec fn scan_result(
    before: LazyScan,
    after: LazyScan,
    row: Option<Result<ScanRow>>,
) -> bool {
    &&& after.spec_direction() == before.spec_direction()
    &&& after.spec_read_sequence() == before.spec_read_sequence()
    &&& after.tombstones() == before.tombstones()
    &&& match row {
        None => {
            &&& after.pending() =~= Set::<Record>::empty()
            &&& forall|key: Seq<u8>|
                !#[trigger] scan_shows_key(
                    before.pending(),
                    before.tombstones(),
                    key,
                    before.spec_read_sequence(),
                )
        },
        Some(Ok(row)) => scan_step(before, after, row.key@) && scan_finds(
            before,
            row.key@,
            row.value@,
        ),
        Some(Err(error)) => {
            &&& error.says(ErrorKind::Corruption, "put record is missing value bytes"@)
            &&& exists|key: Seq<u8>| #[trigger]
                scan_breaks_at(before, key) && scan_step(before, after, key)
        },
    }
}

/// A scan shows rows in key order and no key twice: the row of a later step comes
/// strictly after the row of the step before it.
pub proof fn rows_come_in_key_order(
    first: LazyScan,
    second: LazyScan,
    third: LazyScan,
    row: ScanRow,
    next: ScanRow,
)
    requires
        scan_result(first, second, Some(Ok(row))),
        scan_result(second, third, Some(Ok(next))),
    ensures
        first.spec_direction().visits_before(row.key@, next.key@),
{
    let record = choose|record: Record| #[trigger]
        scan_shows(
            second.pending(),
            second.tombstones(),
            next.key@,
            second.spec_read_sequence(),
            record,
        ) && record.value is Some && next.value@ == SourceView::of(record.value->0);
    assert(second.pending().contains(record));
}

/// Passing a row changes nothing about the rows that come after it.
pub proof fn later_rows_are_unchanged(
    before: LazyScan,
    after: LazyScan,
    row: ScanRow,
    key: Seq<u8>,
    record: Record,
)
    requires
        scan_result(before, after, Some(Ok(row))),
        before.spec_direction().visits_before(row.key@, key),
    ensures
        scan_shows(
            after.pending(),
            after.tombstones(),
            key,
            after.spec_read_sequence(),
            record,
        ) <==> scan_shows(
            before.pending(),
            before.tombstones(),
            key,
            before.spec_read_sequence(),
            record,
        ),
{
    passing_keeps_later_keys(before, after, row.key@, key, record);
}

proof fn passing_keeps_later_keys(
    before: LazyScan,
    after: LazyScan,
    passed: Seq<u8>,
    key: Seq<u8>,
    record: Record,
)
    requires
        scan_step(before, after, passed),
        after.spec_read_sequence() == before.spec_read_sequence(),
        after.tombstones() == before.tombstones(),
        before.spec_direction().visits_before(passed, key),
    ensures
        scan_shows(
            after.pending(),
            after.tombstones(),
            key,
            after.spec_read_sequence(),
            record,
        ) <==> scan_shows(
            before.pending(),
            before.tombstones(),
            key,
            before.spec_read_sequence(),
            record,
        ),
{
    assert forall|other: Record|
        other.key.user_key == key implies #[trigger] after.pending().contains(other)
        == before.pending().contains(other) by {}
    assert forall|other: Record|
        other.key.user_key == key implies after.pending().contains(other)
        == #[trigger] before.pending().contains(other) by {}
}

/// Whether a scan shows `key`, given its state.
pub open spec fn scan_shows_next(scan: LazyScan, key: Seq<u8>) -> bool {
    scan_shows_key(scan.pending(), scan.tombstones(), key, scan.spec_read_sequence())
}

/// Whether a step for `key` may return `row`: the value of the newest visible record of the
/// key, or corruption where that record lacks its value.
pub open spec fn scan_returns(scan: LazyScan, key: Seq<u8>, row: Result<ScanRow>) -> bool {
    match row {
        Ok(row) => row.key@ == key && scan_finds(scan, key, row.value@),
        Err(error) => {
            &&& error.says(ErrorKind::Corruption, "put record is missing value bytes"@)
            &&& scan_breaks_at(scan, key)
        },
    }
}

/// Whether `rows` are all that a scan returns: each step from one state to the next
/// returned one of them, and the step after the last returned none.
pub open spec fn scan_drained(scans: Seq<LazyScan>, rows: Seq<Result<ScanRow>>) -> bool {
    &&& scans.len() == rows.len() + 2
    &&& forall|i: int|
        0 <= i < rows.len() ==> scan_result(scans[i], scans[i + 1], Some(#[trigger] rows[i]))
    &&& scan_result(scans[rows.len() as int], scans[rows.len() as int + 1], None)
}

/// Draining a scan visits exactly the visible keys, in scan order and each once; the step
/// for a key returns the value of its newest visible record, or corruption where that
/// record lacks its value.
pub proof fn a_drained_scan_visits_every_visible_key(
    scans: Seq<LazyScan>,
    rows: Seq<Result<ScanRow>>,
) -> (keys: Seq<Seq<u8>>)
    requires
        scan_drained(scans, rows),
    ensures
        keys.len() == rows.len(),
        forall|i: int, j: int|
            0 <= i < j < keys.len() ==> scans[0].spec_direction().visits_before(
                #[trigger] keys[i],
                #[trigger] keys[j],
            ),
        forall|key: Seq<u8>| #[trigger] scan_shows_next(scans[0], key) <==> keys.contains(key),
        forall|i: int|
            0 <= i < keys.len() ==> scan_returns(scans[0], #[trigger] keys[i], rows[i]),
    decreases rows.len(),
{
    let before = scans[0];
    if rows.len() == 0 {
        let keys = Seq::<Seq<u8>>::empty();
        assert forall|key: Seq<u8>| #[trigger]
            scan_shows_next(before, key) <==> keys.contains(key) by {
            assert(!scan_shows_key(
                before.pending(),
                before.tombstones(),
                key,
                before.spec_read_sequence(),
            ));
        }
        keys
    } else {
        let after = scans[1];
        let later = rows.drop_first();
        assert(scan_result(before, after, Some(rows[0])));
        assert forall|i: int| 0 <= i < later.len() implies scan_result(
            scans.drop_first()[i],
            scans.drop_first()[i + 1],
            Some(#[trigger] later[i]),
        ) by {
            assert(later[i] == rows[i + 1]);
        }
        let rest = a_drained_scan_visits_every_visible_key(scans.drop_first(), later);
        let key = step_key(before, after, rows[0]);
        let keys = seq![key] + rest;
        assert forall|j: int| 0 < j < keys.len() implies {
            &&& before.spec_direction().visits_before(key, #[trigger] keys[j])
            &&& scan_shows_next(before, keys[j])
            &&& scan_returns(before, keys[j], rows[j])
        } by {
            assert(keys[j] == rest[j - 1] && rows[j] == later[j - 1]);
            assert(scan_returns(after, rest[j - 1], later[j - 1]));
            assert(rest.contains(rest[j - 1]));
            let shown = choose|record: Record|
                scan_shows(
                    after.pending(),
                    after.tombstones(),
                    keys[j],
                    after.spec_read_sequence(),
                    record,
                );
            assert(after.pending().contains(shown));
            passing_keeps_later_keys(before, after, key, keys[j], shown);
            assert(scan_shows(
                before.pending(),
                before.tombstones(),
                keys[j],
                before.spec_read_sequence(),
                shown,
            ));
            match rows[j] {
                Ok(row) => {
                    let record = choose|record: Record| #[trigger]
                        scan_shows(
                            after.pending(),
                            after.tombstones(),
                            keys[j],
                            after.spec_read_sequence(),
                            record,
                        ) && record.value is Some && row.value@ == SourceView::of(record.value->0);
                    passing_keeps_later_keys(before, after, key, keys[j], record);
                },
                Err(_) => {
                    let record = choose|record: Record| #[trigger]
                        scan_shows(
                            after.pending(),
                            after.tombstones(),
                            keys[j],
                            after.spec_read_sequence(),
                            record,
                        ) && record.value is None;
                    passing_keeps_later_keys(before, after, key, keys[j], record);
                },
            }
        }
        assert forall|i: int, j: int| 0 <= i < j < keys.len() implies
            before.spec_direction().visits_before(#[trigger] keys[i], #[trigger] keys[j]) by {
            if i > 0 {
                assert(keys[i] == rest[i - 1] && keys[j] == rest[j - 1]);
            }
        }
        assert forall|other: Seq<u8>| #[trigger]
            scan_shows_next(before, other) <==> keys.contains(other) by {
            bytes_order::bytes_order_facts();
            if scan_shows_next(before, other) && other != key {
                let record = choose|record: Record|
                    scan_shows(
                        before.pending(),
                        before.tombstones(),
                        other,
                        before.spec_read_sequence(),
                        record,
                    );
                assert(scan_shows_key(
                    before.pending(),
                    before.tombstones(),
                    other,
                    before.spec_read_sequence(),
                ));
                passing_keeps_later_keys(before, after, key, other, record);
                assert(scan_shows_next(after, other));
                let i = choose|i: int| 0 <= i < rest.len() && rest[i] == other;
                assert(keys[i + 1] == other);
            }
            if other == key {
                assert(keys[0] == other);
            }
            if keys.contains(other) {
                let i = choose|i: int| 0 <= i < keys.len() && keys[i] == other;
                assert(i == 0 || scan_shows_next(before, keys[i]));
            }
        }
        keys
    }
}

proof fn step_key(before: LazyScan, after: LazyScan, row: Result<ScanRow>) -> (key: Seq<u8>)
    requires
        scan_result(before, after, Some(row)),
    ensures
        scan_step(before, after, key),
        scan_returns(before, key, row),
        scan_shows_next(before, key),
{
    match row {
        Ok(row) => row.key@,
        Err(_) => choose|key: Seq<u8>| #[trigger]
            scan_breaks_at(before, key) && scan_step(before, after, key),
    }
}

/// Whether `rows` are all the rows of an iterator over sources: each step returned one of
/// them, and the step after the last returned none.
pub open spec fn iter_drained(iters: Seq<Iter>, rows: Seq<KeyValue>) -> bool {
    &&& iters.len() == rows.len() + 2
    &&& forall|i: int| 0 <= i < iters.len() ==> (#[trigger] iters[i]).scan() is Some
    &&& forall|i: int|
        0 <= i < rows.len() ==> row_result(
            iters[i].scan()->0,
            iters[i + 1].scan()->0,
            Some(Ok(#[trigger] rows[i])),
        )
    &&& row_result(
        iters[rows.len() as int].scan()->0,
        iters[rows.len() as int + 1].scan()->0,
        None,
    )
}

/// Draining an iterator over sources returns exactly the visible keys, in scan order and
/// each once, with the value of the newest visible record. Where no two records have the
/// same record key, a row is returned if and only if the sources show it.
pub proof fn a_drained_iterator_returns_every_visible_row(iters: Seq<Iter>, rows: Seq<KeyValue>)
    requires
        iter_drained(iters, rows),
    ensures
        ({
            let scan = iters[0].scan()->0;
            &&& forall|i: int, j: int|
                0 <= i < j < rows.len() ==> scan.spec_direction().visits_before(
                    (#[trigger] rows[i]).key@,
                    (#[trigger] rows[j]).key@,
                )
            &&& forall|i: int|
                0 <= i < rows.len() ==> scan_finds(
                    scan,
                    (#[trigger] rows[i]).key@,
                    SourceView::Value(rows[i].value@),
                )
            &&& forall|key: Seq<u8>| #[trigger]
                scan_shows_next(scan, key) <==> exists|i: int|
                    0 <= i < rows.len() && (#[trigger] rows[i]).key@ == key
            &&& one_record_per_key(scan.pending()) ==> forall|key: Seq<u8>, value: SourceView|
                 #[trigger]
                scan_finds(scan, key, value) <==> exists|i: int|
                    0 <= i < rows.len() && (#[trigger] rows[i]).key@ == key && value
                        == SourceView::Value(rows[i].value@)
        }),
{
    let scan = iters[0].scan()->0;
    let scans = Seq::new(iters.len(), |i: int| iters[i].scan()->0);
    let found = Seq::new(
        rows.len(),
        |i: int|
            choose|found: Result<ScanRow>|
                scan_result(scans[i], scans[i + 1], Some(found)) && completes(
                    Some(found),
                    Some(Ok(rows[i])),
                ),
    );
    assert forall|i: int| 0 <= i < rows.len() implies scan_result(
        scans[i],
        scans[i + 1],
        Some(#[trigger] found[i]),
    ) && completes(Some(found[i]), Some(Ok(rows[i]))) by {
        let given = choose|given: Option<Result<ScanRow>>| #[trigger]
            scan_result(scans[i], scans[i + 1], given) && completes(given, Some(Ok(rows[i])));
        assert(row_result(scans[i], scans[i + 1], Some(Ok(rows[i]))));
        assert(given is Some);
        assert(scan_result(scans[i], scans[i + 1], Some(given->0)));
    }
    let given = choose|given: Option<Result<ScanRow>>| #[trigger]
        scan_result(scans[rows.len() as int], scans[rows.len() as int + 1], given) && completes(
            given,
            None,
        );
    assert(given is None);
    assert(scan_drained(scans, found));
    let keys = a_drained_scan_visits_every_visible_key(scans, found);
    assert forall|i: int| 0 <= i < rows.len() implies keys[i] == (#[trigger] rows[i]).key@
        && scan_finds(scan, rows[i].key@, SourceView::Value(rows[i].value@)) by {
        assert(scan_returns(scan, keys[i], found[i]));
    }
    assert forall|key: Seq<u8>| #[trigger]
        scan_shows_next(scan, key) <==> exists|i: int|
            0 <= i < rows.len() && (#[trigger] rows[i]).key@ == key by {
        if scan_shows_next(scan, key) {
            let i = choose|i: int| 0 <= i < keys.len() && keys[i] == key;
            assert(rows[i].key@ == key);
        }
    }
    if one_record_per_key(scan.pending()) {
        assert forall|key: Seq<u8>, value: SourceView| #[trigger]
            scan_finds(scan, key, value) implies exists|i: int|
            0 <= i < rows.len() && (#[trigger] rows[i]).key@ == key && value == SourceView::Value(
                rows[i].value@,
            ) by {
            assert(scan_shows_next(scan, key));
            let i = choose|i: int| 0 <= i < rows.len() && (#[trigger] rows[i]).key@ == key;
            one_value_per_key(scan, key, value, SourceView::Value(rows[i].value@));
        }
    }
}

/// Whether no two records have the same record key.
pub open spec fn one_record_per_key(records: Set<Record>) -> bool {
    forall|a: Record, b: Record|
        #![trigger records.contains(a), records.contains(b)]
        records.contains(a) && records.contains(b) && a.key == b.key ==> a == b
}

proof fn one_value_per_key(scan: LazyScan, key: Seq<u8>, a: SourceView, b: SourceView)
    requires
        one_record_per_key(scan.pending()),
        scan_finds(scan, key, a),
        scan_finds(scan, key, b),
    ensures
        a == b,
{
    let x = choose|record: Record| #[trigger]
        scan_shows(scan.pending(), scan.tombstones(), key, scan.spec_read_sequence(), record)
            && record.value is Some && a == SourceView::of(record.value->0);
    let y = choose|record: Record| #[trigger]
        scan_shows(scan.pending(), scan.tombstones(), key, scan.spec_read_sequence(), record)
            && record.value is Some && b == SourceView::of(record.value->0);
    newest_keys_agree(scan.pending(), key, scan.spec_read_sequence(), x, y);
}

/// Sources that were cut to a selection show a row if and only if its key is selected and
/// the whole sources show it.
pub proof fn a_selection_shows_the_selected_rows(
    records: Set<Record>,
    selected: Set<Record>,
    selection: Selection,
    tombstones: Seq<Tombstone>,
    key: Seq<u8>,
    read_sequence: Sequence,
    record: Record,
)
    requires
        forall|record: Record| #[trigger]
            selected.contains(record) <==> selection.selects(record.key.user_key)
                && records.contains(record),
    ensures
        scan_shows(selected, tombstones, key, read_sequence, record) <==> selection.selects(key)
            && scan_shows(records, tombstones, key, read_sequence, record),
{
    if selection.selects(key) && scan_shows(records, tombstones, key, read_sequence, record) {
        assert(selected.contains(record));
    }
    if scan_shows(selected, tombstones, key, read_sequence, record) {
        assert forall|other: Record| #[trigger]
            records.contains(other) && scan_sees(other, key, read_sequence) implies !other.key.lt(
            record.key,
        ) by {
            assert(selected.contains(other));
        }
    }
}

/// What one step of an iterator over sources may return in a database without blob
/// storage, given the state of its scan before and after.
pub open spec fn row_result(
    before: LazyScan,
    after: LazyScan,
    row: Option<Result<KeyValue>>,
) -> bool {
    exists|found: Option<Result<ScanRow>>| #[trigger]
        scan_result(before, after, found) && completes(found, row)
}

/// Whether `row` is what a database without blob storage makes of `found`.
pub open spec fn completes(found: Option<Result<ScanRow>>, row: Option<Result<KeyValue>>) -> bool {
    match found {
        None => row is None,
        Some(Err(error)) => row == Some(Err::<KeyValue, Error>(error)),
        Some(Ok(found)) => match found.value@ {
            SourceView::Value(bytes) => {
                &&& row is Some
                &&& row->0 is Ok
                &&& row->0->Ok_0.key@ == found.key@
                &&& row->0->Ok_0.value@ == bytes
            },
            SourceView::Blob(_) => {
                &&& row is Some
                &&& row->0 is Err
                &&& row->0->Err_0.says(
                    ErrorKind::Corruption,
                    crate::point_value::no_blob_storage_text(),
                )
            },
        },
    }
}

/// What a scan shows for a key is a put that no later put or deletion of the key replaces, as far as
/// the read sees, and that no range deletion hides: none of the key, of a later commit or later in
/// the same one, up to the read. What came after the read is neither shown nor hides anything.
pub proof fn scans_show_the_latest_visible_put(
    records: Set<Record>,
    tombstones: Seq<Tombstone>,
    key: Seq<u8>,
    read_sequence: Sequence,
    record: Record,
    other: Record,
    i: int,
)
    requires
        scan_shows(records, tombstones, key, read_sequence, record),
        records.contains(other),
        other.key.user_key == key,
        0 <= i < tombstones.len(),
    ensures
        records.contains(record),
        record.key.user_key == key,
        record.key.kind is Put,
        record.key.sequence.0 <= read_sequence.0,
        !(other.key.kind is RangeDelete) && other.key.sequence.0 <= read_sequence.0
            ==> other.key.sequence.0 <= record.key.sequence.0,
        !(other.key.kind is RangeDelete) && other.key.sequence == record.key.sequence
            ==> other.key.batch_index <= record.key.batch_index,
        tombstones[i].range.contains(key) && tombstones[i].sequence.0 <= read_sequence.0
            ==> tombstones[i].sequence.0 <= record.key.sequence.0,
        tombstones[i].range.contains(key) && tombstones[i].sequence == record.key.sequence
            ==> tombstones[i].batch_index <= record.key.batch_index,
{
}

} // verus!
