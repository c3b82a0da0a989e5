//! Core key, value, range and commit types.
use vstd::prelude::*;
use vstd::slice::slice_to_vec;

use crate::bytes_order;

verus! {

/// Owned value bytes.
pub type Value = Vec<u8>;

/// Position of a commit in the history of one database.
#[derive(Debug, Clone, Copy, PartialEq, Eq, PartialOrd, Ord, Hash, Structural)]
pub struct Sequence(pub u64);

impl Sequence {
    /// The position before every commit.
    pub fn zero() -> (result: Sequence)
        ensures
            result.0 == 0,
    {
        Sequence(0)
    }

    /// Wraps a raw position.
    pub fn new(sequence: u64) -> (result: Sequence)
        ensures
            result.0 == sequence,
    {
        Sequence(sequence)
    }

    /// Returns the raw position.
    pub fn get(self) -> (sequence: u64)
        ensures
            sequence == self.0,
    {
        self.0
    }
}

/// One end of a key range.
#[derive(Debug, PartialEq, Eq)]
pub enum KeyBound {
    /// The key itself belongs to the range.
    Included(Vec<u8>),
    /// The key itself does not belong to the range.
    Excluded(Vec<u8>),
    /// The range has no limit on this side.
    Unbounded,
}

/// Mathematical form of a [`KeyBound`].
pub enum BoundView {
    /// See [`KeyBound::Included`].
    Included(Seq<u8>),
    /// See [`KeyBound::Excluded`].
    Excluded(Seq<u8>),
    /// See [`KeyBound::Unbounded`].
    Unbounded,
}

impl View for KeyBound {
    type V = BoundView;

    open spec fn view(&self) -> BoundView {
        match self {
            KeyBound::Included(key) => BoundView::Included(key@),
            KeyBound::Excluded(key) => BoundView::Excluded(key@),
            KeyBound::Unbounded => BoundView::Unbounded,
        }
    }
}

impl Clone for KeyBound {
    fn clone(&self) -> (result: KeyBound)
        ensures
            result@ == self@,
    {
        match self {
            KeyBound::Included(key) => KeyBound::Included(slice_to_vec(key.as_slice())),
            KeyBound::Excluded(key) => KeyBound::Excluded(slice_to_vec(key.as_slice())),
            KeyBound::Unbounded => KeyBound::Unbounded,
        }
    }
}

/// A contiguous set of user keys.
#[derive(Debug, PartialEq, Eq)]
pub struct KeyRange {
    /// Lower end.
    pub start: KeyBound,
    /// Upper end.
    pub end: KeyBound,
}

/// Mathematical form of a [`KeyRange`].
pub struct RangeView {
    /// Lower end.
    pub start: BoundView,
    /// Upper end.
    pub end: BoundView,
}

impl View for KeyRange {
    type V = RangeView;

    open spec fn view(&self) -> RangeView {
        RangeView { start: self.start@, end: self.end@ }
    }
}

impl Clone for KeyRange {
    fn clone(&self) -> (result: KeyRange)
        ensures
            result@ == self@,
    {
        KeyRange { start: self.start.clone(), end: self.end.clone() }
    }
}

impl BoundView {
    /// As a lower end: whether `key` lies below it.
    pub open spec fn key_below(self, key: Seq<u8>) -> bool {
        match self {
            BoundView::Included(start) => bytes_order::bytes_lt(key, start),
            BoundView::Excluded(start) => bytes_order::bytes_le(key, start),
            BoundView::Unbounded => false,
        }
    }

    /// As an upper end: whether `key` lies above it.
    pub open spec fn key_above(self, key: Seq<u8>) -> bool {
        match self {
            BoundView::Included(end) => bytes_order::bytes_lt(end, key),
            BoundView::Excluded(end) => bytes_order::bytes_le(end, key),
            BoundView::Unbounded => false,
        }
    }

    /// As an upper end: whether it lies below the lower end `start`, so that no
    /// key can respect both.
    pub open spec fn ends_before(self, start: BoundView) -> bool {
        match (self, start) {
            (BoundView::Unbounded, _) => false,
            (_, BoundView::Unbounded) => false,
            (BoundView::Included(end), BoundView::Included(begin)) => bytes_order::bytes_lt(
                end,
                begin,
            ),
            (BoundView::Included(end), BoundView::Excluded(begin)) => bytes_order::bytes_le(
                end,
                begin,
            ),
            (BoundView::Excluded(end), BoundView::Included(begin)) => bytes_order::bytes_le(
                end,
                begin,
            ),
            (BoundView::Excluded(end), BoundView::Excluded(begin)) => bytes_order::bytes_le(
                end,
                begin,
            ),
        }
    }

    /// As a lower end: whether it lies strictly below the lower end `other`.
    pub open spec fn starts_before(self, other: BoundView) -> bool {
        match (self, other) {
            (BoundView::Unbounded, BoundView::Unbounded) => false,
            (BoundView::Unbounded, _) => true,
            (_, BoundView::Unbounded) => false,
            (BoundView::Included(a), BoundView::Included(b)) => bytes_order::bytes_lt(a, b),
            (BoundView::Included(a), BoundView::Excluded(b)) => bytes_order::bytes_le(a, b),
            (BoundView::Excluded(a), BoundView::Included(b)) => bytes_order::bytes_lt(a, b),
            (BoundView::Excluded(a), BoundView::Excluded(b)) => bytes_order::bytes_lt(a, b),
        }
    }

    /// Number of key bytes a bound holds.
    pub open spec fn byte_len(self) -> nat {
        match self {
            BoundView::Included(key) => key.len(),
            BoundView::Excluded(key) => key.len(),
            BoundView::Unbounded => 0,
        }
    }
}

impl RangeView {
    /// Whether `key` belongs to the range.
    pub open spec fn contains(self, key: Seq<u8>) -> bool {
        !self.start.key_below(key) && !self.end.key_above(key)
    }

    /// Whether the ends of two ranges leave room for a common key.
    pub open spec fn overlaps(self, other: RangeView) -> bool {
        !self.end.ends_before(other.start) && !other.end.ends_before(self.start)
    }
}

/// Two ranges that share a key overlap.
pub proof fn shared_key_means_overlap(a: RangeView, b: RangeView, key: Seq<u8>)
    requires
        a.contains(key),
        b.contains(key),
    ensures
        a.overlaps(b),
{
    bytes_order::bytes_order_facts();
}

/// A key below a lower end is below every higher lower end.
pub proof fn below_start_is_below_later_start(a: BoundView, b: BoundView, key: Seq<u8>)
    requires
        a.key_below(key),
        !b.starts_before(a),
    ensures
        b.key_below(key),
{
    bytes_order::bytes_order_facts();
}

/// The key at which a range starts belongs to it exactly if that end is included, no key before it
/// does, and the same holds of the key at which it ends and of the keys after that one.
pub proof fn ends_limit_a_range(range: RangeView, key: Seq<u8>)
    ensures
        range.start matches BoundView::Included(start) ==> (bytes_order::bytes_lt(key, start)
            ==> !range.contains(key)) && (range.end is Unbounded ==> range.contains(start)),
        range.start matches BoundView::Excluded(start) ==> !range.contains(start) && (
        bytes_order::bytes_lt(key, start) ==> !range.contains(key)) && (range.end is Unbounded
            && bytes_order::bytes_lt(start, key) ==> range.contains(key)),
        range.end matches BoundView::Included(end) ==> (bytes_order::bytes_lt(end, key)
            ==> !range.contains(key)) && (range.start is Unbounded ==> range.contains(end)),
        range.end matches BoundView::Excluded(end) ==> !range.contains(end) && (
        bytes_order::bytes_lt(end, key) ==> !range.contains(key)) && (range.start is Unbounded
            && bytes_order::bytes_lt(key, end) ==> range.contains(key)),
        range.start is Unbounded && range.end is Unbounded ==> range.contains(key),
{
    bytes_order::bytes_order_facts();
}

/// A range holds every key between two keys that it holds.
pub proof fn ranges_have_no_gaps(
    range: RangeView,
    first: Seq<u8>,
    between: Seq<u8>,
    last: Seq<u8>,
)
    requires
        range.contains(first),
        range.contains(last),
        !bytes_order::bytes_lt(between, first),
        !bytes_order::bytes_lt(last, between),
    ensures
        range.contains(between),
{
    bytes_order::bytes_order_facts();
}

/// Each end of a range limits it by itself: a key belongs to the range exactly if it belongs to
/// both ranges that have one of the ends and no other limit.
pub proof fn both_ends_limit_a_range(range: RangeView, key: Seq<u8>)
    ensures
        range.contains(key) == (RangeView { start: range.start, end: BoundView::Unbounded }.contains(
            key,
        ) && RangeView { start: BoundView::Unbounded, end: range.end }.contains(key)),
{
}

/// The key at an end of a range, if it has one.
pub open spec fn end_key(bound: BoundView) -> Option<Seq<u8>> {
    match bound {
        BoundView::Included(key) => Some(key),
        BoundView::Excluded(key) => Some(key),
        BoundView::Unbounded => None,
    }
}

/// Two ranges overlap exactly if each starts before the other ends, where a key at which one
/// starts and the other ends counts if both have it. Which of them is asked makes no difference.
pub proof fn ranges_overlap_where_each_starts_before_the_other_ends(a: RangeView, b: RangeView)
    ensures
        a.overlaps(b) == b.overlaps(a),
        a.overlaps(b) ==> meets(a.end, b.start) && meets(b.end, a.start),
        meets(a.end, b.start) && meets(b.end, a.start) ==> a.overlaps(b),
{
    bytes_order::bytes_order_facts();
}

/// Whether an upper end leaves room above a lower end.
pub open spec fn meets(end: BoundView, start: BoundView) -> bool {
    match (end_key(end), end_key(start)) {
        (Some(last), Some(first)) => bytes_order::bytes_lt(first, last) || (first == last
            && end is Included && start is Included),
        _ => true,
    }
}

/// Two ranges that hold the key at which they start overlap only if one of them holds the key at
/// which the other starts.
pub proof fn overlapping_ranges_share_a_start(
    a: RangeView,
    b: RangeView,
    a_start: Seq<u8>,
    b_start: Seq<u8>,
)
    requires
        a.start == BoundView::Included(a_start),
        b.start == BoundView::Included(b_start),
        a.contains(a_start),
        b.contains(b_start),
    ensures
        a.overlaps(b) == (a.contains(b_start) || b.contains(a_start)),
{
    bytes_order::bytes_order_facts();
}

/// A lower end lies before another exactly if it lets a key through that the other stops; of two
/// different lower ends, one lies before the other.
pub proof fn earlier_starts_hold_more_keys(a: BoundView, b: BoundView, key: Seq<u8>)
    ensures
        a.starts_before(b) ==> !b.starts_before(a),
        a.starts_before(b) && !b.key_below(key) ==> !a.key_below(key),
        a.starts_before(b) && b is Excluded ==> b.key_below(end_key(b)->0) && !a.key_below(
            end_key(b)->0,
        ),
        !a.starts_before(b) && !b.starts_before(a) ==> a.key_below(key) == b.key_below(key),
{
    bytes_order::bytes_order_facts();
}

impl KeyBound {
    /// As a lower end: tells whether `key` lies below it.
    pub fn is_above_key(&self, key: &[u8]) -> (below: bool)
        ensures
            below == self@.key_below(key@),
    {
        proof {
            bytes_order::bytes_order_facts();
        }
        match self {
            KeyBound::Included(start) => bytes_order::bytes_before(key, start.as_slice()),
            KeyBound::Excluded(start) => !bytes_order::bytes_before(start.as_slice(), key),
            KeyBound::Unbounded => false,
        }
    }

    /// As an upper end: tells whether `key` lies above it.
    pub fn is_below_key(&self, key: &[u8]) -> (above: bool)
        ensures
            above == self@.key_above(key@),
    {
        proof {
            bytes_order::bytes_order_facts();
        }
        match self {
            KeyBound::Included(end) => bytes_order::bytes_before(end.as_slice(), key),
            KeyBound::Excluded(end) => !bytes_order::bytes_before(key, end.as_slice()),
            KeyBound::Unbounded => false,
        }
    }

    /// As an upper end: tells whether it lies below the lower end `start`.
    pub fn ends_before(&self, start: &KeyBound) -> (before: bool)
        ensures
            before == self@.ends_before(start@),
    {
        proof {
            bytes_order::bytes_order_facts();
        }
        match self {
            KeyBound::Unbounded => false,
            KeyBound::Included(end) => match start {
                KeyBound::Unbounded => false,
                KeyBound::Included(begin) => bytes_order::bytes_before(
                    end.as_slice(),
                    begin.as_slice(),
                ),
                KeyBound::Excluded(begin) => !bytes_order::bytes_before(
                    begin.as_slice(),
                    end.as_slice(),
                ),
            },
            KeyBound::Excluded(end) => match start {
                KeyBound::Unbounded => false,
                KeyBound::Included(begin) => !bytes_order::bytes_before(
                    begin.as_slice(),
                    end.as_slice(),
                ),
                KeyBound::Excluded(begin) => !bytes_order::bytes_before(
                    begin.as_slice(),
                    end.as_slice(),
                ),
            },
        }
    }

    /// As a lower end: tells whether it lies strictly below the lower end `other`.
    pub fn starts_before(&self, other: &KeyBound) -> (before: bool)
        ensures
            before == self@.starts_before(other@),
    {
        proof {
            bytes_order::bytes_order_facts();
        }
        match self {
            KeyBound::Unbounded => match other {
                KeyBound::Unbounded => false,
                _ => true,
            },
            KeyBound::Included(a) => match other {
                KeyBound::Unbounded => false,
                KeyBound::Included(b) => bytes_order::bytes_before(a.as_slice(), b.as_slice()),
                KeyBound::Excluded(b) => !bytes_order::bytes_before(b.as_slice(), a.as_slice()),
            },
            KeyBound::Excluded(a) => match other {
                KeyBound::Unbounded => false,
                KeyBound::Included(b) => bytes_order::bytes_before(a.as_slice(), b.as_slice()),
                KeyBound::Excluded(b) => bytes_order::bytes_before(a.as_slice(), b.as_slice()),
            },
        }
    }
}

impl KeyRange {
    /// The range of all keys.
    pub fn all() -> (range: KeyRange)
        ensures
            range@.start is Unbounded,
            range@.end is Unbounded,
    {
        KeyRange { start: KeyBound::Unbounded, end: KeyBound::Unbounded }
    }

    /// The keys from `start` up to, but not including, `end`.
    pub fn half_open(start: Vec<u8>, end: Vec<u8>) -> (range: KeyRange)
        ensures
            range@.start == BoundView::Included(start@),
            range@.end == BoundView::Excluded(end@),
    {
        KeyRange { start: KeyBound::Included(start), end: KeyBound::Excluded(end) }
    }

    /// Tells whether `key` belongs to the range.
    pub fn contains(&self, key: &[u8]) -> (inside: bool)
        ensures
            inside == self@.contains(key@),
    {
        !self.start.is_above_key(key) && !self.end.is_below_key(key)
    }

    /// Tells whether the ends of two ranges leave room for a common key.
    pub fn overlaps(&self, other: &KeyRange) -> (overlap: bool)
        ensures
            overlap == self@.overlaps(other@),
    {
        !self.end.ends_before(&other.start) && !other.end.ends_before(&self.start)
    }
}

/// One row: a user key and the value it maps to.
#[derive(Debug, PartialEq, Eq)]
pub struct KeyValue {
    /// User key.
    pub key: Vec<u8>,
    /// Value bytes.
    pub value: Vec<u8>,
}

impl Clone for KeyValue {
    fn clone(&self) -> (copy: KeyValue)
        ensures
            copy.key@ == self.key@,
            copy.value@ == self.value@,
    {
        KeyValue {
            key: slice_to_vec(self.key.as_slice()),
            value: slice_to_vec(self.value.as_slice()),
        }
    }
}

impl KeyValue {
    /// Pairs a key with its value.
    pub fn new(key: Vec<u8>, value: Vec<u8>) -> (row: KeyValue)
        ensures
            row.key == key,
            row.value == value,
    {
        KeyValue { key, value }
    }
}

/// An end of a range is as long as the key at it, and one without a key has no length.
pub proof fn bounds_are_as_long_as_their_key(bound: BoundView)
    ensures
        end_key(bound) matches Some(key) ==> bound.byte_len() == key.len(),
        end_key(bound) is None ==> bound.byte_len() == 0,
{
}

} // verus!
