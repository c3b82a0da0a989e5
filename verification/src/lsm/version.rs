//! The set of tables that readers use.
use std::sync::Arc;
use vstd::prelude::*;

use crate::bytes_order;
use crate::error::{Error, ErrorKind, Result};
use crate::memtable::Record;
use crate::range_tombstone::Tombstone;
use crate::table::{Table, TableSummary};

verus! {

/// The tables of a tree at one point in time.
#[derive(Debug)]
pub struct LsmVersion {
    /// Tables, in the order in which they were added.
    pub tables: Vec<Arc<Table>>,
}

/// Whether two tables of a list carry the same identifier.
pub open spec fn has_duplicate_id(tables: Seq<Arc<Table>>) -> bool {
    exists|i: int, j: int|
        0 <= i < j < tables.len() && (#[trigger] tables[i]).properties.id == (
        #[trigger] tables[j]).properties.id
}

/// Whether the key bounds of two tables meet.
pub open spec fn spans_meet(a: TableSummary, b: TableSummary) -> bool {
    bytes_order::bytes_le(a.smallest_user_key, b.largest_user_key) && bytes_order::bytes_le(
        b.smallest_user_key,
        a.largest_user_key,
    )
}

impl LsmVersion {
    /// Whether every table is well formed.
    pub open spec fn wf(&self) -> bool {
        forall|i: int| 0 <= i < self.tables@.len() ==> (#[trigger] self.tables@[i]).wf()
    }

    /// Whether a table holds the record.
    pub open spec fn has_record(&self, record: Record) -> bool {
        exists|i: int|
            0 <= i < self.tables@.len() && (#[trigger] self.tables@[i]).records@.contains(record)
    }

    /// Whether a table holds the range deletion.
    pub open spec fn has_tombstone(&self, tombstone: Tombstone) -> bool {
        exists|i: int|
            0 <= i < self.tables@.len() && (#[trigger] self.tables@[i]).tombstones().contains(
                tombstone,
            )
    }

    /// Collects tables; two tables of one identifier are corruption.
    pub fn new(tables: Vec<Arc<Table>>) -> (result: Result<LsmVersion>)
        requires
            forall|i: int| 0 <= i < tables@.len() ==> (#[trigger] tables@[i]).wf(),
        ensures
            match result {
                Ok(version) => {
                    &&& !has_duplicate_id(tables@)
                    &&& version.wf()
                    &&& version.tables == tables
                },
                Err(error) => {
                    &&& has_duplicate_id(tables@)
                    &&& error.says(ErrorKind::Corruption, "table id is used more than once"@)
                },
            },
    {
        let mut i: usize = 0;
        while i < tables.len()
            invariant
                i <= tables.len(),
                forall|a: int, b: int|
                    0 <= a < b < tables@.len() && a < i ==> (#[trigger] tables@[a]).properties.id
                        != (#[trigger] tables@[b]).properties.id,
            decreases tables.len() - i,
        {
            let mut j: usize = i + 1;
            while j < tables.len()
                invariant
                    i < j <= tables.len(),
                    forall|b: int|
                        i < b < j ==> tables@[i as int].properties.id != (
                        #[trigger] tables@[b]).properties.id,
                decreases tables.len() - j,
            {
                if tables[i].properties.id == tables[j].properties.id {
                    return Err(Error::corruption("table id is used more than once"));
                }
                j += 1;
            }
            i += 1;
        }
        Ok(LsmVersion { tables })
    }

    /// Returns the tables.
    pub fn table_handles(&self) -> (tables: &Vec<Arc<Table>>)
        ensures
            *tables == self.tables,
    {
        &self.tables
    }

    /// The number of tables of level zero among the first `count`.
    pub open spec fn l0_count(&self, count: int) -> nat
        decreases count,
    {
        if count <= 0 {
            0
        } else {
            self.l0_count(count - 1) + if self.tables@[count - 1].properties.level.0 == 0 {
                1nat
            } else {
                0nat
            }
        }
    }

    /// Returns the number of tables of level zero.
    pub fn l0_table_count(&self) -> (count: usize)
        ensures
            count == self.l0_count(self.tables@.len() as int),
    {
        let mut count: usize = 0;
        let mut i: usize = 0;
        while i < self.tables.len()
            invariant
                i <= self.tables.len(),
                count <= i,
                count == self.l0_count(i as int),
            decreases self.tables.len() - i,
        {
            if self.tables[i].properties.level.get() == 0 {
                count += 1;
            }
            i += 1;
        }
        count
    }

    /// Whether the tables at `i` and `j` are of level zero and their key bounds meet.
    pub open spec fn l0_pair_overlaps(&self, i: int, j: int) -> bool {
        &&& self.tables@[i].properties.level.0 == 0
        &&& self.tables@[j].properties.level.0 == 0
        &&& spans_meet(self.tables@[i].properties@, self.tables@[j].properties@)
    }

    /// Tells whether two tables of level zero overlap.
    pub fn l0_has_overlapping_tables(&self) -> (overlap: bool)
        ensures
            overlap == exists|i: int, j: int|
                0 <= i < j < self.tables@.len() && #[trigger] self.l0_pair_overlaps(i, j),
    {
        proof {
            bytes_order::bytes_order_facts();
        }
        let mut i: usize = 0;
        while i < self.tables.len()
            invariant
                i <= self.tables.len(),
                forall|a: int, b: int|
                    0 <= a < b < self.tables@.len() && a < i ==> !#[trigger] self.l0_pair_overlaps(
                        a,
                        b,
                    ),
            decreases self.tables.len() - i,
        {
            let mut j: usize = i + 1;
            while j < self.tables.len()
                invariant
                    i < j <= self.tables.len(),
                    forall|b: int| i < b < j ==> !#[trigger] self.l0_pair_overlaps(i as int, b),
                decreases self.tables.len() - j,
            {
                let left = &self.tables[i].properties;
                let right = &self.tables[j].properties;
                proof {
                    bytes_order::bytes_order_facts();
                }
                if left.level.get() == 0 && right.level.get() == 0 && !bytes_order::bytes_before(
                    right.largest_user_key.as_slice(),
                    left.smallest_user_key.as_slice(),
                ) && !bytes_order::bytes_before(
                    left.largest_user_key.as_slice(),
                    right.smallest_user_key.as_slice(),
                ) {
                    assert(self.l0_pair_overlaps(i as int, j as int));
                    return true;
                }
                j += 1;
            }
            i += 1;
        }
        false
    }

    /// Returns a version with one more table; a repeated identifier is corruption.
    pub fn with_added_l0_table(&self, table: Arc<Table>) -> (result: Result<LsmVersion>)
        requires
            self.wf(),
            table.wf(),
        ensures
            match result {
                Ok(version) => {
                    &&& !has_duplicate_id(self.tables@.push(table))
                    &&& version.wf()
                    &&& version.tables@ == self.tables@.push(table)
                },
                Err(error) => {
                    &&& has_duplicate_id(self.tables@.push(table))
                    &&& error.says(ErrorKind::Corruption, "table id is used more than once"@)
                },
            },
    {
        let mut tables: Vec<Arc<Table>> = clone_handles(&self.tables);
        tables.push(table);
        LsmVersion::new(tables)
    }

    /// Returns the positions of the tables whose key bounds hold `key`.
    pub fn point_lookup_tables(&self, key: &[u8]) -> (found: Vec<usize>)
        ensures
            forall|i: int|
                0 <= i < found@.len() ==> (#[trigger] found@[i]) < self.tables@.len()
                    && self.tables@[found@[i] as int].properties@.spans(key@),
            forall|t: int|
                0 <= t < self.tables@.len() && (#[trigger] self.tables@[t]).properties@.spans(key@)
                    ==> found@.contains(t as usize),
            forall|i: int, j: int| 0 <= i < j < found@.len() ==> found@[i] < found@[j],
    {
        let mut found: Vec<usize> = Vec::new();
        let mut i: usize = 0;
        while i < self.tables.len()
            invariant
                i <= self.tables.len(),
                forall|j: int|
                    0 <= j < found@.len() ==> (#[trigger] found@[j]) < self.tables@.len()
                        && self.tables@[found@[j] as int].properties@.spans(key@),
                forall|t: int|
                    0 <= t < i && (#[trigger] self.tables@[t]).properties@.spans(key@)
                        ==> found@.contains(t as usize),
                forall|j: int| 0 <= j < found@.len() ==> (#[trigger] found@[j]) < i,
                forall|a: int, b: int| 0 <= a < b < found@.len() ==> found@[a] < found@[b],
            decreases self.tables.len() - i,
        {
            let ghost before = found@;
            if self.tables[i].properties.spans_key(key) {
                found.push(i);
                proof {
                    assert(found@[before.len() as int] == i);
                    assert forall|t: int|
                        0 <= t < i + 1 && (#[trigger] self.tables@[t]).properties@.spans(
                            key@,
                        ) implies found@.contains(t as usize) by {
                        if t < i {
                            assert(before.contains(t as usize));
                            let k = choose|k: int| 0 <= k < before.len() && before[k] == t as usize;
                            assert(found@[k] == t as usize);
                        }
                    }
                }
            }
            i += 1;
        }
        found
    }
}

/// The tables of level zero are counted one by one: the count is the number of them in the list,
/// and adding a table counts it exactly if it is of level zero.
pub proof fn every_table_of_level_zero_is_counted(version: LsmVersion, count: int)
    requires
        0 <= count <= version.tables@.len(),
    ensures
        version.l0_count(count) == version.tables@.take(count).filter(
            |table: Arc<Table>| table.properties.level.0 == 0,
        ).len(),
    decreases count,
{
    let of_zero = |table: Arc<Table>| table.properties.level.0 == 0;
    reveal(Seq::filter);
    if count > 0 {
        every_table_of_level_zero_is_counted(version, count - 1);
        assert(version.tables@.take(count).drop_last() =~= version.tables@.take(count - 1));
        assert(version.tables@.take(count).last() == version.tables@[count - 1]);
    } else {
        assert(version.tables@.take(count) =~= Seq::empty());
    }
}

/// The key bounds of two tables meet exactly if one of them spans the first key of the other,
/// where each spans its own first key. Two tables that span a common key meet.
pub proof fn meeting_spans_share_a_key(a: TableSummary, b: TableSummary, key: Seq<u8>)
    ensures
        spans_meet(a, b) == spans_meet(b, a),
        a.spans(key) && b.spans(key) ==> spans_meet(a, b),
        a.spans(a.smallest_user_key) && b.spans(b.smallest_user_key) ==> (spans_meet(a, b)
            == (a.spans(b.smallest_user_key) || b.spans(a.smallest_user_key))),
{
    bytes_order::bytes_order_facts();
}

/// A table spans the keys at its bounds and those between them, and no key outside.
pub proof fn tables_span_what_lies_between_their_bounds(table: TableSummary, key: Seq<u8>)
    ensures
        bytes_order::bytes_lt(key, table.smallest_user_key) ==> !table.spans(key),
        bytes_order::bytes_lt(table.largest_user_key, key) ==> !table.spans(key),
        !bytes_order::bytes_lt(key, table.smallest_user_key) && !bytes_order::bytes_lt(
            table.largest_user_key,
            key,
        ) ==> table.spans(key),
{
    bytes_order::bytes_order_facts();
}

/// Makes another handle on each table of a list.
pub fn clone_handles(tables: &Vec<Arc<Table>>) -> (copy: Vec<Arc<Table>>)
    ensures
        copy@ == tables@,
{
    let mut copy: Vec<Arc<Table>> = Vec::with_capacity(tables.len());
    let mut i: usize = 0;
    while i < tables.len()
        invariant
            i <= tables.len(),
            copy.len() == i,
            forall|j: int| 0 <= j < i ==> copy@[j] == tables@[j],
        decreases tables.len() - i,
    {
        copy.push(Arc::clone(&tables[i]));
        i += 1;
    }
    proof {
        assert(copy@ =~= tables@);
    }
    copy
}

/// A table admits exactly the records whose key it spans and whose commit is neither before its
/// oldest nor after its newest.
pub proof fn tables_admit_records_inside_their_bounds(table: TableSummary, record: Record)
    ensures
        table.admits(record) ==> table.spans(record.key.user_key),
        record.key.sequence.0 < table.smallest_sequence.0 ==> !table.admits(record),
        record.key.sequence.0 > table.largest_sequence.0 ==> !table.admits(record),
        table.spans(record.key.user_key) && table.smallest_sequence.0 <= record.key.sequence.0
            && record.key.sequence.0 <= table.largest_sequence.0 ==> table.admits(record),
{
}

} // verus!
