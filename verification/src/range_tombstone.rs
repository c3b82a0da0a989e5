//! Range deletions and their coverage of point records.
use vstd::prelude::*;

use crate::types;
use crate::types::{KeyRange, RangeView, Sequence};

verus! {

/// Deletion of every key of a range by one operation.
#[derive(Debug, PartialEq, Eq)]
pub struct RangeTombstone {
    /// Keys that were deleted.
    pub range: KeyRange,
    /// Commit that deleted them.
    pub sequence: Sequence,
    /// Position of the operation inside its commit.
    pub batch_index: u32,
}

/// Mathematical form of a [`RangeTombstone`].
pub struct Tombstone {
    /// Keys that were deleted.
    pub range: RangeView,
    /// Commit that deleted them.
    pub sequence: Sequence,
    /// Position of the operation inside its commit.
    pub batch_index: u32,
}

impl View for RangeTombstone {
    type V = Tombstone;

    open spec fn view(&self) -> Tombstone {
        Tombstone { range: self.range@, sequence: self.sequence, batch_index: self.batch_index }
    }
}

impl Clone for RangeTombstone {
    fn clone(&self) -> (result: RangeTombstone)
        ensures
            result@ == self@,
    {
        RangeTombstone {
            range: self.range.clone(),
            sequence: self.sequence,
            batch_index: self.batch_index,
        }
    }
}

impl Tombstone {
    /// Whether a read at `read_sequence` finds the point written at
    /// `point_sequence` and `point_batch_index` deleted by this tombstone.
    pub open spec fn covers(
        self,
        key: Seq<u8>,
        point_sequence: Sequence,
        point_batch_index: u32,
        read_sequence: Sequence,
    ) -> bool {
        &&& self.sequence.0 <= read_sequence.0
        &&& self.range.contains(key)
        &&& self.sequence.0 > point_sequence.0 || (self.sequence.0 == point_sequence.0
            && self.batch_index > point_batch_index)
    }

    /// Bytes this tombstone is charged with.
    pub open spec fn charged_bytes(self) -> int {
        let total: int = (self.range.start.byte_len() + self.range.end.byte_len() + 32) as int;
        if total <= u64::MAX {
            total
        } else {
            u64::MAX as int
        }
    }
}

/// Mathematical form of a list of tombstones.
pub open spec fn tombstones_of(list: Seq<RangeTombstone>) -> Seq<Tombstone> {
    Seq::new(list.len(), |i: int| list[i]@)
}

/// Whether one of the tombstones covers the point.
pub open spec fn any_covers(
    tombstones: Seq<Tombstone>,
    key: Seq<u8>,
    point_sequence: Sequence,
    point_batch_index: u32,
    read_sequence: Sequence,
) -> bool {
    exists|i: int|
        0 <= i < tombstones.len() && (#[trigger] tombstones[i]).covers(
            key,
            point_sequence,
            point_batch_index,
            read_sequence,
        )
}

/// Whether one of the tombstones deletes `key` after `read_sequence`.
pub open spec fn any_deletes_key_after(
    tombstones: Seq<Tombstone>,
    key: Seq<u8>,
    read_sequence: Sequence,
) -> bool {
    exists|i: int|
        0 <= i < tombstones.len() && (#[trigger] tombstones[i]).range.contains(key)
            && tombstones[i].sequence.0 > read_sequence.0
}

/// Whether one of the tombstones overlaps `range` and is later than `read_sequence`.
pub open spec fn any_overlaps_after(
    tombstones: Seq<Tombstone>,
    range: RangeView,
    read_sequence: Sequence,
) -> bool {
    exists|i: int|
        0 <= i < tombstones.len() && (#[trigger] tombstones[i]).range.overlaps(range)
            && tombstones[i].sequence.0 > read_sequence.0
}

/// Whether tombstones stand in the order of their lower ends.
pub open spec fn is_sorted(tombstones: Seq<Tombstone>) -> bool {
    forall|i: int, j: int|
        0 <= i < j < tombstones.len() ==> !(#[trigger] tombstones[j]).range.start.starts_before(
            (#[trigger] tombstones[i]).range.start,
        )
}

impl RangeTombstone {
    /// Returns the deleted keys.
    pub fn range(&self) -> (range: &KeyRange)
        ensures
            *range == self.range,
    {
        &self.range
    }

    /// Tells whether a read at `read_sequence` finds the point written at
    /// `point_sequence` and `point_batch_index` deleted by this tombstone.
    pub fn covers_visible_point(
        &self,
        key: &[u8],
        point_sequence: Sequence,
        point_batch_index: u32,
        read_sequence: Sequence,
    ) -> (covered: bool)
        ensures
            covered == self@.covers(key@, point_sequence, point_batch_index, read_sequence),
    {
        if self.sequence.get() > read_sequence.get() || !self.range.contains(key) {
            return false;
        }
        self.sequence.get() > point_sequence.get() || (self.sequence.get() == point_sequence.get()
            && self.batch_index > point_batch_index)
    }
}

/// Returns the bytes a tombstone over `range` is charged with.
pub fn range_tombstone_bytes(range: &KeyRange) -> (bytes: u64)
    ensures
        forall|sequence: Sequence, batch_index: u32|
            bytes == #[trigger] (Tombstone { range: range@, sequence, batch_index }).charged_bytes(),
{
    bound_bytes(&range.start).saturating_add(bound_bytes(&range.end)).saturating_add(32)
}

/// Returns the number of key bytes a bound holds.
pub fn bound_bytes(bound: &types::KeyBound) -> (bytes: u64)
    ensures
        bytes == bound@.byte_len(),
{
    match bound {
        types::KeyBound::Included(key) => key.len() as u64,
        types::KeyBound::Excluded(key) => key.len() as u64,
        types::KeyBound::Unbounded => 0,
    }
}

/// Adds a tombstone to a sorted list, after those with the same lower end.
pub fn insert_sorted(list: &mut Vec<RangeTombstone>, tombstone: RangeTombstone)
    requires
        is_sorted(tombstones_of(old(list)@)),
    ensures
        is_sorted(tombstones_of(final(list)@)),
        tombstones_of(final(list)@).to_multiset() =~= tombstones_of(
            old(list)@,
        ).to_multiset().insert(tombstone@),
        final(list)@.len() == old(list)@.len() + 1,
{
    broadcast use vstd::seq_lib::group_to_multiset_ensures;

    let ghost before = tombstones_of(list@);
    let ghost added = tombstone@;
    proof {
        crate::bytes_order::bytes_order_facts();
    }
    let mut index: usize = list.len();
    while index > 0
        invariant
            index <= list.len(),
            list@ == old(list)@,
            before == tombstones_of(list@),
            added == tombstone@,
            is_sorted(before),
            forall|i: int|
                index <= i < before.len() ==> added.range.start.starts_before(
                    (#[trigger] before[i]).range.start,
                ),
        ensures
            index <= list.len(),
            forall|i: int|
                index <= i < before.len() ==> added.range.start.starts_before(
                    (#[trigger] before[i]).range.start,
                ),
            index > 0 ==> !added.range.start.starts_before(before[index - 1].range.start),
        decreases index,
    {
        assert(list@[index - 1]@ == before[index - 1]);
        if !tombstone.range.start.starts_before(&list[index - 1].range.start) {
            break;
        }
        index -= 1;
    }
    list.insert(index, tombstone);
    proof {
        assert(tombstones_of(list@) =~= before.insert(index as int, added));
        let after = before.insert(index as int, added);
        assert(after.remove(index as int) =~= before);
        assert(after[index as int] == added);
        assert(after.contains(added));
        assert(after.to_multiset().remove(added).insert(added) =~= after.to_multiset());
        assert forall|i: int, j: int|
            0 <= i < j < tombstones_of(list@).len() implies !(#[trigger] tombstones_of(
            list@,
        )[j]).range.start.starts_before((#[trigger] tombstones_of(list@)[i]).range.start) by {
            if i < index && j > index {
                assert(after[j] == before[j - 1]);
            } else if j == index {
                start_order_transitive(
                    added.range.start,
                    before[index - 1].range.start,
                    before[i].range.start,
                );
                if i < index - 1 {
                    assert(!before[index - 1].range.start.starts_before(before[i].range.start));
                }
            } else if i == index {
                assert(after[j] == before[j - 1]);
                starts_before_asymmetric(added.range.start, before[j - 1].range.start);
            } else if i > index {
                assert(after[j] == before[j - 1]);
                assert(after[i] == before[i - 1]);
            }
        }
    }
}

proof fn start_order_transitive(a: types::BoundView, b: types::BoundView, c: types::BoundView)
    ensures
        !a.starts_before(b) && !b.starts_before(c) ==> !a.starts_before(c),
{
    crate::bytes_order::bytes_order_facts();
}

proof fn starts_before_asymmetric(a: types::BoundView, b: types::BoundView)
    requires
        a.starts_before(b),
    ensures
        !b.starts_before(a),
{
    crate::bytes_order::bytes_order_facts();
}

/// Puts tombstones in the order of their lower ends.
pub fn sort_tombstones(list: Vec<RangeTombstone>) -> (sorted: Vec<RangeTombstone>)
    ensures
        is_sorted(tombstones_of(sorted@)),
        tombstones_of(sorted@).to_multiset() == tombstones_of(list@).to_multiset(),
        sorted@.len() == list@.len(),
{
    broadcast use vstd::seq_lib::group_to_multiset_ensures;

    let mut sorted: Vec<RangeTombstone> = Vec::with_capacity(list.len());
    let mut i: usize = 0;
    proof {
        assert(tombstones_of(sorted@) =~= Seq::<Tombstone>::empty());
        assert(tombstones_of(list@).take(0) =~= Seq::<Tombstone>::empty());
    }
    while i < list.len()
        invariant
            i <= list.len(),
            sorted.len() == i,
            is_sorted(tombstones_of(sorted@)),
            tombstones_of(sorted@).to_multiset() == tombstones_of(list@).take(
                i as int,
            ).to_multiset(),
        decreases list.len() - i,
    {
        broadcast use vstd::seq_lib::group_to_multiset_ensures;

        let ghost whole = tombstones_of(list@);
        insert_sorted(&mut sorted, list[i].clone());
        proof {
            assert(whole.take(i + 1) =~= whole.take(i as int).push(whole[i as int]));
        }
        i += 1;
    }
    proof {
        assert(tombstones_of(list@).take(i as int) =~= tombstones_of(list@));
    }
    sorted
}

/// Tells whether a tombstone of `list` covers the point.
pub fn list_covers(
    list: &Vec<RangeTombstone>,
    key: &[u8],
    point_sequence: Sequence,
    point_batch_index: u32,
    read_sequence: Sequence,
) -> (covered: bool)
    ensures
        covered == any_covers(
            tombstones_of(list@),
            key@,
            point_sequence,
            point_batch_index,
            read_sequence,
        ),
{
    let mut i: usize = 0;
    while i < list.len()
        invariant
            i <= list.len(),
            forall|j: int|
                0 <= j < i ==> !(#[trigger] tombstones_of(list@)[j]).covers(
                    key@,
                    point_sequence,
                    point_batch_index,
                    read_sequence,
                ),
        decreases list.len() - i,
    {
        assert(tombstones_of(list@)[i as int] == list@[i as int]@);
        if list[i].covers_visible_point(key, point_sequence, point_batch_index, read_sequence) {
            return true;
        }
        i += 1;
    }
    false
}

/// Appends copies of `more` to `list`.
pub fn extend_tombstones(list: &mut Vec<RangeTombstone>, more: &Vec<RangeTombstone>)
    ensures
        tombstones_of(final(list)@) == tombstones_of(old(list)@) + tombstones_of(more@),
{
    let ghost before = tombstones_of(list@);
    let mut i: usize = 0;
    while i < more.len()
        invariant
            i <= more.len(),
            tombstones_of(list@) =~= before + tombstones_of(more@).take(i as int),
        decreases more.len() - i,
    {
        let ghost previous = tombstones_of(list@);
        list.push(more[i].clone());
        proof {
            assert(tombstones_of(list@) =~= previous.push(more@[i as int]@));
            assert(tombstones_of(more@).take(i + 1) =~= tombstones_of(more@).take(i as int).push(
                more@[i as int]@,
            ));
        }
        i += 1;
    }
    proof {
        assert(tombstones_of(more@).take(i as int) =~= tombstones_of(more@));
    }
}

/// Copies a list of tombstones.
pub fn clone_tombstones(list: &Vec<RangeTombstone>) -> (copy: Vec<RangeTombstone>)
    ensures
        tombstones_of(copy@) == tombstones_of(list@),
{
    let mut copy: Vec<RangeTombstone> = Vec::with_capacity(list.len());
    proof {
        assert(tombstones_of(copy@) =~= Seq::<Tombstone>::empty());
    }
    extend_tombstones(&mut copy, list);
    proof {
        assert(Seq::<Tombstone>::empty() + tombstones_of(list@) =~= tombstones_of(list@));
    }
    copy
}

/// Tombstones in the order of their lower ends, for coverage queries.
#[derive(Debug)]
pub struct RangeTombstoneIndex {
    tombstones: Vec<RangeTombstone>,
}

impl View for RangeTombstoneIndex {
    type V = Seq<Tombstone>;

    closed spec fn view(&self) -> Seq<Tombstone> {
        tombstones_of(self.tombstones@)
    }
}

/// Equal multisets hold the same elements.
pub proof fn same_multiset_same_members(a: Seq<Tombstone>, b: Seq<Tombstone>)
    requires
        a.to_multiset() == b.to_multiset(),
    ensures
        forall|t: Tombstone| a.contains(t) <==> b.contains(t),
{
    broadcast use vstd::seq_lib::group_to_multiset_ensures;

    assert forall|t: Tombstone| a.contains(t) <==> b.contains(t) by {
        assert(a.contains(t) <==> a.to_multiset().count(t) > 0);
        assert(b.contains(t) <==> b.to_multiset().count(t) > 0);
    }
}

/// What a list of tombstones covers does not depend on their order.
pub proof fn coverage_ignores_order(
    a: Seq<Tombstone>,
    b: Seq<Tombstone>,
    key: Seq<u8>,
    point_sequence: Sequence,
    point_batch_index: u32,
    read_sequence: Sequence,
)
    requires
        a.to_multiset() == b.to_multiset(),
    ensures
        any_covers(a, key, point_sequence, point_batch_index, read_sequence) == any_covers(
            b,
            key,
            point_sequence,
            point_batch_index,
            read_sequence,
        ),
{
    same_multiset_same_members(a, b);
    if any_covers(a, key, point_sequence, point_batch_index, read_sequence) {
        let i = choose|i: int|
            0 <= i < a.len() && (#[trigger] a[i]).covers(
                key,
                point_sequence,
                point_batch_index,
                read_sequence,
            );
        assert(a.contains(a[i]));
        assert(b.contains(a[i]));
        let j = choose|j: int| 0 <= j < b.len() && b[j] == a[i];
        assert(b[j].covers(key, point_sequence, point_batch_index, read_sequence));
    }
    if any_covers(b, key, point_sequence, point_batch_index, read_sequence) {
        let i = choose|i: int|
            0 <= i < b.len() && (#[trigger] b[i]).covers(
                key,
                point_sequence,
                point_batch_index,
                read_sequence,
            );
        assert(b.contains(b[i]));
        assert(a.contains(b[i]));
        let j = choose|j: int| 0 <= j < a.len() && a[j] == b[i];
        assert(a[j].covers(key, point_sequence, point_batch_index, read_sequence));
    }
}

impl RangeTombstoneIndex {
    /// Whether the tombstones stand in the order of their lower ends.
    pub open spec fn wf(&self) -> bool {
        is_sorted(self@)
    }

    /// Builds an index over `tombstones`.
    pub fn new(tombstones: Vec<RangeTombstone>) -> (index: RangeTombstoneIndex)
        ensures
            index.wf(),
            index@.to_multiset() == tombstones_of(tombstones@).to_multiset(),
            index@.len() == tombstones@.len(),
    {
        RangeTombstoneIndex { tombstones: sort_tombstones(tombstones) }
    }

    /// Returns every tombstone, in the order of their lower ends.
    pub fn all(&self) -> (tombstones: &Vec<RangeTombstone>)
        ensures
            tombstones_of(tombstones@) == self@,
    {
        &self.tombstones
    }

    /// Returns how many tombstones start at or before `key`; no later one holds it.
    fn candidates(&self, key: &[u8]) -> (count: usize)
        requires
            self.wf(),
        ensures
            count <= self@.len(),
            forall|i: int|
                count <= i < self@.len() ==> !(#[trigger] self@[i]).range.contains(key@),
    {
        let mut count: usize = 0;
        while count < self.tombstones.len()
            invariant
                self.wf(),
                self@.len() == self.tombstones.len(),
                count <= self@.len(),
            decreases self.tombstones.len() - count,
        {
            assert(self.tombstones@[count as int]@ == self@[count as int]);
            if self.tombstones[count].range.start.is_above_key(key) {
                assert forall|i: int| count <= i < self@.len() implies !(#[trigger]
                self@[i]).range.contains(key@) by {
                    if count < i {
                        types::below_start_is_below_later_start(
                            self@[count as int].range.start,
                            self@[i].range.start,
                            key@,
                        );
                    }
                }
                return count;
            }
            count += 1;
        }
        count
    }

    /// Tells whether a tombstone covers the point.
    pub fn covers_visible_point(
        &self,
        key: &[u8],
        point_sequence: Sequence,
        point_batch_index: u32,
        read_sequence: Sequence,
    ) -> (covered: bool)
        requires
            self.wf(),
        ensures
            covered == any_covers(
                self@,
                key@,
                point_sequence,
                point_batch_index,
                read_sequence,
            ),
    {
        let count: usize = self.candidates(key);
        let mut i: usize = 0;
        while i < count
            invariant
                i <= count <= self@.len(),
                self@.len() == self.tombstones.len(),
                forall|j: int|
                    0 <= j < i ==> !(#[trigger] self@[j]).covers(
                        key@,
                        point_sequence,
                        point_batch_index,
                        read_sequence,
                    ),
            decreases count - i,
        {
            assert(self.tombstones@[i as int]@ == self@[i as int]);
            if self.tombstones[i].covers_visible_point(
                key,
                point_sequence,
                point_batch_index,
                read_sequence,
            ) {
                return true;
            }
            i += 1;
        }
        false
    }

    /// Tells whether a tombstone deletes `key` after `read_sequence`.
    pub fn deletes_key_after(&self, key: &[u8], read_sequence: Sequence) -> (deleted: bool)
        requires
            self.wf(),
        ensures
            deleted == any_deletes_key_after(self@, key@, read_sequence),
    {
        let count: usize = self.candidates(key);
        let mut i: usize = 0;
        while i < count
            invariant
                i <= count <= self@.len(),
                self@.len() == self.tombstones.len(),
                forall|j: int|
                    0 <= j < i ==> !((#[trigger] self@[j]).range.contains(key@)
                        && self@[j].sequence.0 > read_sequence.0),
            decreases count - i,
        {
            assert(self.tombstones@[i as int]@ == self@[i as int]);
            if self.tombstones[i].range.contains(key) && self.tombstones[i].sequence.get()
                > read_sequence.get() {
                return true;
            }
            i += 1;
        }
        false
    }

    /// Tells whether a tombstone overlaps `range` and is later than `read_sequence`.
    pub fn overlaps_after(&self, range: &KeyRange, read_sequence: Sequence) -> (overlap: bool)
        ensures
            overlap == any_overlaps_after(self@, range@, read_sequence),
    {
        let mut i: usize = 0;
        while i < self.tombstones.len()
            invariant
                i <= self@.len(),
                self@.len() == self.tombstones.len(),
                forall|j: int|
                    0 <= j < i ==> !((#[trigger] self@[j]).range.overlaps(range@)
                        && self@[j].sequence.0 > read_sequence.0),
            decreases self.tombstones.len() - i,
        {
            assert(self.tombstones@[i as int]@ == self@[i as int]);
            if self.tombstones[i].range.overlaps(range) && self.tombstones[i].sequence.get()
                > read_sequence.get() {
                return true;
            }
            i += 1;
        }
        false
    }

    /// Returns copies of the tombstones that overlap `range`, in order.
    pub fn overlapping_range(&self, range: &KeyRange) -> (found: Vec<RangeTombstone>)
        ensures
            tombstones_of(found@) == self@.filter(|t: Tombstone| t.range.overlaps(range@)),
    {
        overlapping(&self.tombstones, range)
    }
}

/// Returns copies of the tombstones of `list` that overlap `range`, in order.
pub fn overlapping(list: &Vec<RangeTombstone>, range: &KeyRange) -> (found: Vec<RangeTombstone>)
    ensures
        tombstones_of(found@) == tombstones_of(list@).filter(
            |t: Tombstone| t.range.overlaps(range@),
        ),
{
    let mut found: Vec<RangeTombstone> = Vec::new();
    let ghost whole = tombstones_of(list@);
    let ghost keep = |t: Tombstone| t.range.overlaps(range@);
    let mut i: usize = 0;
    proof {
        reveal(Seq::filter);
        assert(tombstones_of(found@) =~= whole.take(0).filter(keep));
    }
    while i < list.len()
        invariant
            i <= list.len(),
            whole == tombstones_of(list@),
            keep == (|t: Tombstone| t.range.overlaps(range@)),
            tombstones_of(found@) == whole.take(i as int).filter(keep),
        decreases list.len() - i,
    {
        let ghost before = tombstones_of(found@);
        let hit: bool = list[i].range.overlaps(range);
        if hit {
            found.push(list[i].clone());
        }
        proof {
            reveal(Seq::filter);
            assert(whole.take(i + 1).drop_last() =~= whole.take(i as int));
            assert(whole.take(i + 1).last() == list@[i as int]@);
            if hit {
                assert(tombstones_of(found@) =~= before.push(list@[i as int]@));
            }
        }
        i += 1;
    }
    proof {
        assert(whole.take(i as int) =~= whole);
    }
    found
}

/// Whether a write came before another: in an earlier commit, or earlier in the same one.
pub open spec fn came_before(
    sequence: Sequence,
    batch_index: u32,
    other: Sequence,
    other_index: u32,
) -> bool {
    sequence.0 < other.0 || (sequence == other && batch_index < other_index)
}

/// A range deletion hides a write from a read exactly if the key lies in the range, the write came
/// before the deletion, and the read is not from before the deletion.
pub proof fn deletions_hide_earlier_writes(
    tombstone: Tombstone,
    key: Seq<u8>,
    sequence: Sequence,
    batch_index: u32,
    read_sequence: Sequence,
)
    ensures
        tombstone.covers(key, sequence, batch_index, read_sequence) ==> came_before(
            sequence,
            batch_index,
            tombstone.sequence,
            tombstone.batch_index,
        ) && tombstone.sequence.0 <= read_sequence.0 && tombstone.range.contains(key),
        tombstone.range.contains(key) && came_before(
            sequence,
            batch_index,
            tombstone.sequence,
            tombstone.batch_index,
        ) && tombstone.sequence.0 <= read_sequence.0 ==> tombstone.covers(
            key,
            sequence,
            batch_index,
            read_sequence,
        ),
{
}

/// What a range deletion hides from a read, it hides from every later read, and with a write it
/// hides every earlier one of the key.
pub proof fn hidden_writes_stay_hidden(
    tombstone: Tombstone,
    key: Seq<u8>,
    sequence: Sequence,
    batch_index: u32,
    read_sequence: Sequence,
    earlier: Sequence,
    earlier_index: u32,
    later_read: Sequence,
)
    requires
        tombstone.covers(key, sequence, batch_index, read_sequence),
        came_before(earlier, earlier_index, sequence, batch_index),
        read_sequence.0 <= later_read.0,
    ensures
        tombstone.covers(key, earlier, earlier_index, later_read),
{
}

/// The charge of a range deletion grows by a byte with each byte of its ends.
pub proof fn longer_ends_are_charged(a: Tombstone, b: Tombstone)
    requires
        a.range.start.byte_len() + a.range.end.byte_len() + 32 <= u64::MAX,
        b.range.start.byte_len() + b.range.end.byte_len() + 32 <= u64::MAX,
    ensures
        a.charged_bytes() - b.charged_bytes() == a.range.start.byte_len()
            + a.range.end.byte_len() - b.range.start.byte_len() - b.range.end.byte_len(),
        a.charged_bytes() == a.range.start.byte_len() + a.range.end.byte_len() + 32,
{
}

} // verus!
