//! Which keys a scan visits.
use vstd::prelude::*;
use vstd::slice::slice_to_vec;

use crate::bytes_order;
use crate::types::{BoundView, KeyBound, KeyRange, RangeView};

verus! {

/// Order in which a scan visits keys.
#[derive(Debug, Clone, Copy, PartialEq, Eq, Structural)]
pub enum Direction {
    /// From the smallest key to the largest.
    Forward,
    /// From the largest key to the smallest.
    Reverse,
}

impl Default for Direction {
    fn default() -> (direction: Direction)
        ensures
            direction == Direction::Forward,
    {
        Direction::Forward
    }
}

impl Direction {
    /// Whether a scan in this direction visits `a` before `b`.
    pub open spec fn visits_before(self, a: Seq<u8>, b: Seq<u8>) -> bool {
        match self {
            Direction::Forward => bytes_order::bytes_lt(a, b),
            Direction::Reverse => bytes_order::bytes_lt(b, a),
        }
    }
}

/// Tells whether a scan in `direction` visits `left` before `right`.
pub fn compare_scan_keys(left: &[u8], right: &[u8], direction: Direction) -> (before: bool)
    ensures
        before == direction.visits_before(left@, right@),
{
    match direction {
        Direction::Forward => bytes_order::bytes_before(left, right),
        Direction::Reverse => bytes_order::bytes_before(right, left),
    }
}

/// Where a key stands to the selected keys, going forward.
#[derive(Debug, Clone, Copy, PartialEq, Eq, Structural)]
pub enum ForwardKeyState {
    /// No selected key has been reached yet.
    Before,
    /// The key is selected.
    Match,
    /// Every selected key has been passed.
    After,
}

/// Where a key stands to the selected keys, going backward.
#[derive(Debug, Clone, Copy, PartialEq, Eq, Structural)]
pub enum ReverseKeyState {
    /// No selected key has been reached yet.
    Above,
    /// The key is selected.
    Match,
    /// Every selected key has been passed.
    Below,
}

/// The keys that a scan visits.
#[derive(Debug, PartialEq, Eq)]
pub enum ScanSelector {
    /// The keys of a range.
    Range(KeyRange),
    /// The keys that start with a prefix.
    Prefix(Vec<u8>),
}

/// Mathematical form of a [`ScanSelector`].
pub enum Selection {
    /// See [`ScanSelector::Range`].
    Range(RangeView),
    /// See [`ScanSelector::Prefix`].
    Prefix(Seq<u8>),
}

impl View for ScanSelector {
    type V = Selection;

    open spec fn view(&self) -> Selection {
        match self {
            ScanSelector::Range(range) => Selection::Range(range@),
            ScanSelector::Prefix(prefix) => Selection::Prefix(prefix@),
        }
    }
}

impl Clone for ScanSelector {
    fn clone(&self) -> (result: ScanSelector)
        ensures
            result@ == self@,
    {
        match self {
            ScanSelector::Range(range) => ScanSelector::Range(range.clone()),
            ScanSelector::Prefix(prefix) => ScanSelector::Prefix(slice_to_vec(prefix.as_slice())),
        }
    }
}

impl Selection {
    /// Whether a key is selected.
    pub open spec fn selects(self, key: Seq<u8>) -> bool {
        match self {
            Selection::Range(range) => range.contains(key),
            Selection::Prefix(prefix) => bytes_order::has_prefix(key, prefix),
        }
    }

    /// Where a key stands going forward.
    pub open spec fn forward_state(self, key: Seq<u8>) -> ForwardKeyState {
        let below = match self {
            Selection::Range(range) => range.start.key_below(key),
            Selection::Prefix(prefix) => bytes_order::bytes_lt(key, prefix),
        };
        if below {
            ForwardKeyState::Before
        } else if self.selects(key) {
            ForwardKeyState::Match
        } else {
            ForwardKeyState::After
        }
    }

    /// Where a key stands going backward.
    pub open spec fn reverse_state(self, key: Seq<u8>) -> ReverseKeyState {
        let above = match self {
            Selection::Range(range) => range.end.key_above(key),
            Selection::Prefix(prefix) => !bytes_order::has_prefix(key, prefix)
                && !bytes_order::bytes_lt(key, prefix),
        };
        if above {
            ReverseKeyState::Above
        } else if self.selects(key) {
            ReverseKeyState::Match
        } else {
            ReverseKeyState::Below
        }
    }
}

/// Going forward and going backward agree on which keys are selected.
pub proof fn directions_agree_on_match(selection: Selection, key: Seq<u8>)
    ensures
        selection.forward_state(key) == ForwardKeyState::Match <==> selection.selects(key),
        selection.reverse_state(key) == ReverseKeyState::Match <==> selection.selects(key),
{
    if let Selection::Prefix(prefix) = selection {
        if bytes_order::has_prefix(key, prefix) {
            bytes_order::prefixed_key_not_before_prefix(key, prefix);
        }
    }
}

/// Going forward, a key never returns to an earlier state.
pub proof fn forward_state_is_monotone(selection: Selection, a: Seq<u8>, b: Seq<u8>)
    requires
        bytes_order::bytes_le(a, b),
    ensures
        selection.forward_state(b) == ForwardKeyState::Before ==> selection.forward_state(a)
            == ForwardKeyState::Before,
        selection.forward_state(a) == ForwardKeyState::After ==> selection.forward_state(b)
            == ForwardKeyState::After,
{
    bytes_order::bytes_order_facts();
    directions_agree_on_match(selection, a);
    directions_agree_on_match(selection, b);
    if let Selection::Prefix(prefix) = selection {
        if !bytes_order::bytes_lt(a, prefix) && bytes_order::has_prefix(b, prefix) {
            bytes_order::keys_before_prefixed_key_share_prefix(a, b, prefix);
        }
    }
}

/// Going backward, a key never returns to an earlier state.
pub proof fn reverse_state_is_monotone(selection: Selection, a: Seq<u8>, b: Seq<u8>)
    requires
        bytes_order::bytes_le(a, b),
    ensures
        selection.reverse_state(a) == ReverseKeyState::Above ==> selection.reverse_state(b)
            == ReverseKeyState::Above,
        selection.reverse_state(b) == ReverseKeyState::Below ==> selection.reverse_state(a)
            == ReverseKeyState::Below,
{
    bytes_order::bytes_order_facts();
    directions_agree_on_match(selection, a);
    directions_agree_on_match(selection, b);
    if let Selection::Prefix(prefix) = selection {
        if !bytes_order::bytes_lt(a, prefix) && bytes_order::has_prefix(b, prefix) {
            bytes_order::keys_before_prefixed_key_share_prefix(a, b, prefix);
        }
    }
}

impl ScanSelector {
    /// Tells whether a key is selected.
    pub fn contains_key(&self, key: &[u8]) -> (selected: bool)
        ensures
            selected == self@.selects(key@),
    {
        proof {
            directions_agree_on_match(self@, key@);
        }
        match self.forward_key_state(key) {
            ForwardKeyState::Match => true,
            _ => false,
        }
    }

    /// Tells where a key stands going forward.
    pub fn forward_key_state(&self, key: &[u8]) -> (state: ForwardKeyState)
        ensures
            state == self@.forward_state(key@),
    {
        match self {
            ScanSelector::Range(range) => {
                if range.start.is_above_key(key) {
                    ForwardKeyState::Before
                } else if range.end.is_below_key(key) {
                    ForwardKeyState::After
                } else {
                    ForwardKeyState::Match
                }
            },
            ScanSelector::Prefix(prefix) => {
                if bytes_order::bytes_before(key, prefix.as_slice()) {
                    ForwardKeyState::Before
                } else if bytes_order::starts_with(key, prefix.as_slice()) {
                    ForwardKeyState::Match
                } else {
                    ForwardKeyState::After
                }
            },
        }
    }

    /// Tells where a key stands going backward.
    pub fn reverse_key_state(&self, key: &[u8]) -> (state: ReverseKeyState)
        ensures
            state == self@.reverse_state(key@),
    {
        match self {
            ScanSelector::Range(range) => {
                if range.end.is_below_key(key) {
                    ReverseKeyState::Above
                } else if range.start.is_above_key(key) {
                    ReverseKeyState::Below
                } else {
                    ReverseKeyState::Match
                }
            },
            ScanSelector::Prefix(prefix) => {
                if bytes_order::starts_with(key, prefix.as_slice()) {
                    ReverseKeyState::Match
                } else if bytes_order::bytes_before(key, prefix.as_slice()) {
                    ReverseKeyState::Below
                } else {
                    ReverseKeyState::Above
                }
            },
        }
    }

    /// Returns the prefix of a prefix scan.
    pub fn prefix(&self) -> (prefix: Option<&[u8]>)
        ensures
            match prefix {
                Some(prefix) => self@ == Selection::Prefix(prefix@),
                None => self@ is Range,
            },
    {
        match self {
            ScanSelector::Range(_) => None,
            ScanSelector::Prefix(prefix) => Some(prefix.as_slice()),
        }
    }
}

/// Returns the first key after every key that starts with `prefix`, if there is one.
pub fn prefix_successor(prefix: &[u8]) -> (end: Option<Vec<u8>>)
    ensures
        match end {
            Some(end) => forall|key: Seq<u8>| #[trigger]
                bytes_order::has_prefix(key, prefix@) <==> bytes_order::bytes_le(prefix@, key)
                    && bytes_order::bytes_lt(key, end@),
            None => forall|key: Seq<u8>| #[trigger]
                bytes_order::has_prefix(key, prefix@) <==> bytes_order::bytes_le(prefix@, key),
        },
{
    let mut end: Vec<u8> = slice_to_vec(prefix);
    while end.len() > 0
        invariant
            end.len() <= prefix.len(),
            end@ == prefix@.subrange(0, end.len() as int),
            forall|i: int| end.len() <= i < prefix.len() ==> prefix@[i] == 255,
        decreases end.len(),
    {
        let last: usize = end.len() - 1;
        if end[last] == 255 {
            end.pop();
            assert(end@ =~= prefix@.subrange(0, last as int));
        } else {
            let bumped: u8 = end[last] + 1;
            end.set(last, bumped);
            assert forall|key: Seq<u8>| #[trigger]
                bytes_order::has_prefix(key, prefix@) <==> bytes_order::bytes_le(prefix@, key)
                    && bytes_order::bytes_lt(key, end@) by {
                successor_bounds_prefix(prefix@, end@, last as int, key);
            }
            return Some(end);
        }
    }
    assert forall|key: Seq<u8>| #[trigger]
        bytes_order::has_prefix(key, prefix@) <==> bytes_order::bytes_le(prefix@, key) by {
        full_prefix_has_no_successor(prefix@, key);
    }
    None
}

proof fn successor_bounds_prefix(prefix: Seq<u8>, end: Seq<u8>, last: int, key: Seq<u8>)
    requires
        0 <= last < prefix.len(),
        end.len() == last + 1,
        forall|i: int| 0 <= i < last ==> end[i] == prefix[i],
        end[last] == prefix[last] + 1,
        forall|i: int| last < i < prefix.len() ==> prefix[i] == 255,
    ensures
        bytes_order::has_prefix(key, prefix) <==> bytes_order::bytes_le(prefix, key)
            && bytes_order::bytes_lt(key, end),
{
    if bytes_order::has_prefix(key, prefix) {
        assert forall|j: int| 0 <= j < prefix.len() implies key[j] == prefix[j] by {
            assert(key.subrange(0, prefix.len() as int)[j] == prefix[j]);
        }
        bytes_order::prefixed_key_not_before_prefix(key, prefix);
        bytes_order::bytes_lt_total(prefix, key);
        bytes_order::first_difference_decides(key, end, last);
    }
    if bytes_order::bytes_le(prefix, key) && bytes_order::bytes_lt(key, end) {
        bytes_order::bytes_lt_asymmetric(key, end);
        if prefix != key {
            let i = bytes_order::first_difference(prefix, key);
            if i < prefix.len() {
                assert(i <= last);
                if i < last {
                    bytes_order::first_difference_decides(end, key, i);
                } else if key[last] > end[last] {
                    bytes_order::first_difference_decides(end, key, last);
                } else {
                    assert(bytes_order::has_prefix(key, end)) by {
                        assert(key.subrange(0, end.len() as int) =~= end);
                    }
                    bytes_order::prefixed_key_not_before_prefix(key, end);
                }
                assert(false);
            }
        }
        assert(key.subrange(0, prefix.len() as int) =~= prefix);
    }
}

proof fn full_prefix_has_no_successor(prefix: Seq<u8>, key: Seq<u8>)
    requires
        forall|i: int| 0 <= i < prefix.len() ==> prefix[i] == 255,
    ensures
        bytes_order::has_prefix(key, prefix) <==> bytes_order::bytes_le(prefix, key),
{
    if bytes_order::has_prefix(key, prefix) {
        bytes_order::prefixed_key_not_before_prefix(key, prefix);
        bytes_order::bytes_lt_total(prefix, key);
    }
    if bytes_order::bytes_le(prefix, key) {
        if prefix != key {
            let i = bytes_order::first_difference(prefix, key);
            assert(i == prefix.len());
        }
        assert(key.subrange(0, prefix.len() as int) =~= prefix);
    }
}

/// Returns the range that holds exactly the selected keys.
pub fn selector_query_range(selector: &ScanSelector) -> (range: KeyRange)
    ensures
        forall|key: Seq<u8>| #[trigger] range@.contains(key) <==> selector@.selects(key),
        selector@ matches Selection::Range(selected) ==> range@ == selected,
{
    match selector {
        ScanSelector::Range(range) => range.clone(),
        ScanSelector::Prefix(prefix) => {
            let start = KeyBound::Included(slice_to_vec(prefix.as_slice()));
            proof {
                bytes_order::bytes_order_facts();
            }
            match prefix_successor(prefix.as_slice()) {
                Some(end) => {
                    let range = KeyRange { start, end: KeyBound::Excluded(end) };
                    assert(range@.start == BoundView::Included(prefix@));
                    assert forall|key: Seq<u8>| #[trigger] range@.contains(key) <==> selector@.selects(key) by {
                        assert(bytes_order::has_prefix(key, prefix@) <==> bytes_order::bytes_le(prefix@, key) && bytes_order::bytes_lt(key, end@));
                    }
                    range
                },
                None => {
                    let range = KeyRange { start, end: KeyBound::Unbounded };
                    assert(range@.start == BoundView::Included(prefix@));
                    assert forall|key: Seq<u8>| #[trigger] range@.contains(key) <==> selector@.selects(key) by {
                        assert(bytes_order::has_prefix(key, prefix@) <==> bytes_order::bytes_le(prefix@, key));
                    }
                    range
                },
            }
        },
    }
}

/// Going backward visits keys in the opposite order, and going forward visits a key before every
/// longer key that begins with it.
pub proof fn directions_reverse_each_other(a: Seq<u8>, b: Seq<u8>, more: Seq<u8>)
    ensures
        Direction::Forward.visits_before(a, b) == Direction::Reverse.visits_before(b, a),
        a != b ==> Direction::Forward.visits_before(a, b) != Direction::Reverse.visits_before(a, b),
        more.len() > 0 ==> Direction::Forward.visits_before(a, a + more),
        more.len() > 0 ==> Direction::Reverse.visits_before(a + more, a),
{
    bytes_order::bytes_order_facts();
    if more.len() > 0 {
        bytes_order::first_difference_decides(a, a + more, a.len() as int);
    }
}

/// A prefix selects exactly the keys that it begins, and going forward it is passed by exactly the
/// keys that come after all of those.
pub proof fn prefix_selects_what_it_begins(prefix: Seq<u8>, rest: Seq<u8>, key: Seq<u8>)
    ensures
        Selection::Prefix(prefix).selects(prefix + rest),
        Selection::Prefix(prefix).selects(key) ==> key == prefix + key.skip(prefix.len() as int),
        Selection::Prefix(prefix).forward_state(key) == ForwardKeyState::After
            ==> bytes_order::bytes_lt(prefix, key) && !Selection::Prefix(prefix).selects(key),
        bytes_order::bytes_lt(key, prefix) ==> Selection::Prefix(prefix).forward_state(key)
            == ForwardKeyState::Before && Selection::Prefix(prefix).reverse_state(key)
            == ReverseKeyState::Below,
{
    bytes_order::bytes_order_facts();
    assert((prefix + rest).subrange(0, prefix.len() as int) =~= prefix);
    if Selection::Prefix(prefix).selects(key) {
        assert(key =~= prefix + key.skip(prefix.len() as int));
    }
    if bytes_order::bytes_lt(key, prefix) && bytes_order::has_prefix(key, prefix) {
        bytes_order::prefixed_key_not_before_prefix(key, prefix);
    }
    if bytes_order::has_prefix(prefix, prefix) {
    } else {
        assert(prefix.subrange(0, prefix.len() as int) =~= prefix);
    }
}

} // verus!
