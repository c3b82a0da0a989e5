//! Sorted maps keyed by names and by identifiers.
use std::collections::BTreeMap;
use vstd::prelude::*;
use vstd::string::*;
use vstd::utf8::*;

use crate::bytes_order;
use crate::bytes_order::KeyOrder;
use crate::types::Sequence;

verus! {

/// Whether no key occurs twice among pairs.
pub open spec fn distinct_keys<K, T>(pairs: Seq<(K, T)>) -> bool {
    forall|i: int, j: int|
        0 <= i < j < pairs.len() ==> (#[trigger] pairs[i]).0 != (#[trigger] pairs[j]).0
}

/// Whether a key occurs among pairs.
pub open spec fn has_key<K, T>(pairs: Seq<(K, T)>, key: K) -> bool {
    exists|i: int| 0 <= i < pairs.len() && (#[trigger] pairs[i]).0 == key
}

/// Where a key occurs among pairs.
pub open spec fn position<K, T>(pairs: Seq<(K, T)>, key: K) -> int {
    choose|i: int| 0 <= i < pairs.len() && (#[trigger] pairs[i]).0 == key
}

/// The map that pairs of distinct keys stand for.
pub open spec fn map_of<K, T>(pairs: Seq<(K, T)>) -> Map<K, T> {
    Map::new(|key: K| has_key(pairs, key), |key: K| pairs[position(pairs, key)].1)
}

/// Pairs of distinct keys hold the value of each of their keys.
pub proof fn pair_is_in_map<K, T>(pairs: Seq<(K, T)>, i: int)
    requires
        distinct_keys(pairs),
        0 <= i < pairs.len(),
    ensures
        map_of(pairs).dom().contains(pairs[i].0),
        map_of(pairs)[pairs[i].0] == pairs[i].1,
{
    let key = pairs[i].0;
    assert(has_key(pairs, key));
    let at = position(pairs, key);
    assert(pairs[at].0 == key);
    if at < i {
        assert(pairs[at].0 != pairs[i].0);
    } else if i < at {
        assert(pairs[i].0 != pairs[at].0);
    }
}

/// A key of the map occurs among the pairs.
pub proof fn map_key_is_in_pairs<K, T>(pairs: Seq<(K, T)>, key: K) -> (i: int)
    requires
        map_of(pairs).dom().contains(key),
    ensures
        0 <= i < pairs.len(),
        pairs[i].0 == key,
        map_of(pairs)[key] == pairs[i].1,
{
    position(pairs, key)
}

pub(crate) proof fn map_of_insert<K, T>(pairs: Seq<(K, T)>, at: int, key: K, value: T)
    requires
        distinct_keys(pairs),
        0 <= at <= pairs.len(),
        !has_key(pairs, key),
    ensures
        distinct_keys(pairs.insert(at, (key, value))),
        map_of(pairs.insert(at, (key, value))) == map_of(pairs).insert(key, value),
{
    let longer = pairs.insert(at, (key, value));
    assert forall|i: int, j: int| 0 <= i < j < longer.len() implies (#[trigger] longer[i]).0 != (
    #[trigger] longer[j]).0 by {
        let a = if i < at {
            i
        } else {
            i - 1
        };
        let b = if j < at {
            j
        } else {
            j - 1
        };
        if i == at {
            assert(longer[j] == pairs[b]);
        } else if j == at {
            assert(longer[i] == pairs[a]);
        } else {
            assert(longer[i] == pairs[a]);
            assert(longer[j] == pairs[b]);
        }
    }
    let new_map = map_of(longer);
    let old_map = map_of(pairs).insert(key, value);
    assert(longer[at] == (key, value));
    pair_is_in_map(longer, at);
    assert forall|k: K| new_map.dom().contains(k) <==> old_map.dom().contains(k) by {
        if new_map.dom().contains(k) {
            let i = map_key_is_in_pairs(longer, k);
            if i < at {
                assert(pairs[i].0 == k);
            } else if i > at {
                assert(pairs[i - 1].0 == k);
            }
        }
        if has_key(pairs, k) {
            let i = position(pairs, k);
            if i < at {
                assert(longer[i].0 == k);
            } else {
                assert(longer[i + 1].0 == k);
            }
        }
    }
    assert forall|k: K| new_map.dom().contains(k) implies new_map[k] == old_map[k] by {
        if k != key {
            let i = map_key_is_in_pairs(longer, k);
            let j = if i < at {
                i
            } else {
                i - 1
            };
            assert(pairs[j] == longer[i]);
            pair_is_in_map(pairs, j);
        }
    }
    assert(new_map =~= old_map);
}

pub(crate) proof fn map_of_update<K, T>(pairs: Seq<(K, T)>, at: int, value: T)
    requires
        distinct_keys(pairs),
        0 <= at < pairs.len(),
    ensures
        distinct_keys(pairs.update(at, (pairs[at].0, value))),
        map_of(pairs.update(at, (pairs[at].0, value))) == map_of(pairs).insert(pairs[at].0, value),
{
    let key = pairs[at].0;
    let changed = pairs.update(at, (key, value));
    assert forall|i: int, j: int| 0 <= i < j < changed.len() implies (#[trigger] changed[i]).0 != (
    #[trigger] changed[j]).0 by {
        assert(pairs[i].0 != pairs[j].0);
    }
    let new_map = map_of(changed);
    let old_map = map_of(pairs).insert(key, value);
    pair_is_in_map(changed, at);
    assert forall|k: K| new_map.dom().contains(k) <==> old_map.dom().contains(k) by {
        if new_map.dom().contains(k) {
            let i = map_key_is_in_pairs(changed, k);
            assert(pairs[i].0 == k);
        }
        if has_key(pairs, k) {
            let i = position(pairs, k);
            assert(changed[i].0 == k);
        }
    }
    assert forall|k: K| new_map.dom().contains(k) implies new_map[k] == old_map[k] by {
        if k != key {
            let i = map_key_is_in_pairs(changed, k);
            assert(pairs[i] == changed[i]);
            pair_is_in_map(pairs, i);
        }
    }
    assert(new_map =~= old_map);
}

pub(crate) proof fn map_of_remove<K, T>(pairs: Seq<(K, T)>, at: int)
    requires
        distinct_keys(pairs),
        0 <= at < pairs.len(),
    ensures
        distinct_keys(pairs.remove(at)),
        map_of(pairs.remove(at)) == map_of(pairs).remove(pairs[at].0),
{
    let key = pairs[at].0;
    let shorter = pairs.remove(at);
    assert forall|i: int, j: int| 0 <= i < j < shorter.len() implies (#[trigger] shorter[i]).0 != (
    #[trigger] shorter[j]).0 by {
        let a = if i < at {
            i
        } else {
            i + 1
        };
        let b = if j < at {
            j
        } else {
            j + 1
        };
        assert(pairs[a].0 != pairs[b].0);
    }
    let new_map = map_of(shorter);
    let old_map = map_of(pairs).remove(key);
    assert forall|k: K| new_map.dom().contains(k) <==> old_map.dom().contains(k) by {
        if new_map.dom().contains(k) {
            let i = map_key_is_in_pairs(shorter, k);
            let a = if i < at {
                i
            } else {
                i + 1
            };
            assert(pairs[a].0 == k);
            if a < at {
                assert(pairs[a].0 != pairs[at].0);
            } else {
                assert(pairs[at].0 != pairs[a].0);
            }
        }
        if has_key(pairs, k) && k != key {
            let i = position(pairs, k);
            if i < at {
                assert(shorter[i].0 == k);
            } else {
                assert(shorter[i - 1].0 == k);
            }
        }
    }
    assert forall|k: K| new_map.dom().contains(k) implies new_map[k] == old_map[k] by {
        let i = map_key_is_in_pairs(shorter, k);
        let a = if i < at {
            i
        } else {
            i + 1
        };
        assert(pairs[a] == shorter[i]);
        pair_is_in_map(pairs, a);
    }
    assert(new_map =~= old_map);
}

/// Whether one name comes before another: the order of their UTF-8 bytes.
pub open spec fn name_lt(a: Seq<char>, b: Seq<char>) -> bool {
    bytes_order::bytes_lt(encode_utf8(a), encode_utf8(b))
}

/// Names are equal exactly if their UTF-8 bytes are.
pub proof fn names_by_bytes(a: Seq<char>, b: Seq<char>)
    ensures
        a == b <==> encode_utf8(a) == encode_utf8(b),
{
    encode_utf8_decode_utf8(a);
    encode_utf8_decode_utf8(b);
}

/// The order of names is a strict total order.
pub proof fn name_order_facts()
    ensures
        forall|a: Seq<char>| !#[trigger] name_lt(a, a),
        forall|a: Seq<char>, b: Seq<char>| #[trigger] name_lt(a, b) ==> !name_lt(b, a),
        forall|a: Seq<char>, b: Seq<char>| #[trigger] name_lt(a, b) || name_lt(b, a) || a == b,
        forall|a: Seq<char>, b: Seq<char>, c: Seq<char>| #[trigger]
            name_lt(a, b) && #[trigger] name_lt(b, c) ==> name_lt(a, c),
{
    bytes_order::bytes_order_facts();
    assert forall|a: Seq<char>, b: Seq<char>| #[trigger]
        name_lt(a, b) || name_lt(b, a) || a == b by {
        names_by_bytes(a, b);
        bytes_order::bytes_lt_total(encode_utf8(a), encode_utf8(b));
    }
}

/// Tells how two names are ordered.
pub fn order_names(a: &str, b: &str) -> (order: KeyOrder)
    ensures
        order == KeyOrder::Less <==> name_lt(a@, b@),
        order == KeyOrder::Equal <==> a@ == b@,
        order == KeyOrder::Greater <==> name_lt(b@, a@),
{
    proof {
        names_by_bytes(a@, b@);
    }
    bytes_order::order_bytes(a.as_bytes(), b.as_bytes())
}

/// Whether pairs stand in strictly increasing order of their names.
pub open spec fn names_sorted<T>(pairs: Seq<(Seq<char>, T)>) -> bool {
    forall|i: int, j: int|
        0 <= i < j < pairs.len() ==> name_lt((#[trigger] pairs[i]).0, (#[trigger] pairs[j]).0)
}

/// Sorted names are distinct.
pub proof fn sorted_names_are_distinct<T>(pairs: Seq<(Seq<char>, T)>)
    requires
        names_sorted(pairs),
    ensures
        distinct_keys(pairs),
{
    name_order_facts();
}

/// Whether pairs stand in strictly increasing order of their identifiers.
pub open spec fn ids_sorted<T>(pairs: Seq<(u64, T)>) -> bool {
    forall|i: int, j: int|
        0 <= i < j < pairs.len() ==> (#[trigger] pairs[i]).0 < (#[trigger] pairs[j]).0
}

/// A value with a mathematical form that can be copied and tested for equality.
pub trait Modelled: DeepView + Sized {
    /// Copies the value.
    fn copy_model(&self) -> (copy: Self)
        ensures
            copy.deep_view() == self.deep_view(),
    ;

    /// Tells whether two values have the same mathematical form.
    fn same_model(&self, other: &Self) -> (same: bool)
        ensures
            same == (self.deep_view() == other.deep_view()),
    ;
}

impl Modelled for u64 {
    fn copy_model(&self) -> (copy: u64) {
        *self
    }

    fn same_model(&self, other: &u64) -> (same: bool) {
        *self == *other
    }
}

impl DeepView for Sequence {
    type V = Sequence;

    open spec fn deep_view(&self) -> Sequence {
        *self
    }
}

impl Modelled for Sequence {
    fn copy_model(&self) -> (copy: Sequence) {
        *self
    }

    fn same_model(&self, other: &Sequence) -> (same: bool) {
        *self == *other
    }
}

/// Sorted map from names to values.
#[derive(Debug, PartialEq, Eq)]
pub struct NameMap<V> {
    entries: Vec<(String, V)>,
}

impl<V: Modelled> NameMap<V> {
    /// The names and values, in order.
    pub closed spec fn pairs(&self) -> Seq<(Seq<char>, V::V)> {
        Seq::new(
            self.entries@.len(),
            |i: int| (self.entries@[i].0@, self.entries@[i].1.deep_view()),
        )
    }

    /// Whether the names are sorted.
    pub open spec fn wf(&self) -> bool {
        names_sorted(self.pairs())
    }

    /// The map.
    pub open spec fn map(&self) -> Map<Seq<char>, V::V> {
        map_of(self.pairs())
    }

    /// Returns an empty map.
    pub fn new() -> (map: NameMap<V>)
        ensures
            map.wf(),
            map.pairs() == Seq::<(Seq<char>, V::V)>::empty(),
            map.map() == Map::<Seq<char>, V::V>::empty(),
    {
        let map = NameMap { entries: Vec::new() };
        proof {
            assert(map.pairs() =~= Seq::<(Seq<char>, V::V)>::empty());
            assert(map.map() =~= Map::<Seq<char>, V::V>::empty());
        }
        map
    }

    /// Returns the number of names.
    pub fn len(&self) -> (len: usize)
        ensures
            len == self.pairs().len(),
    {
        self.entries.len()
    }

    /// Tells whether there is no name.
    pub fn is_empty(&self) -> (empty: bool)
        ensures
            empty == (self.pairs().len() == 0),
    {
        self.entries.len() == 0
    }

    /// Returns the name at `index`, in order.
    pub fn name_at(&self, index: usize) -> (name: &str)
        requires
            index < self.pairs().len(),
        ensures
            name@ == self.pairs()[index as int].0,
    {
        self.entries[index].0.as_str()
    }

    /// Returns the value at `index`, in the order of the names.
    pub fn value_at(&self, index: usize) -> (value: &V)
        requires
            index < self.pairs().len(),
        ensures
            value.deep_view() == self.pairs()[index as int].1,
    {
        &self.entries[index].1
    }

    /// Returns how many names come before `name`.
    fn lower_bound(&self, name: &str) -> (index: usize)
        requires
            self.wf(),
        ensures
            index <= self.pairs().len(),
            forall|i: int| 0 <= i < index ==> name_lt((#[trigger] self.pairs()[i]).0, name@),
            forall|i: int|
                index <= i < self.pairs().len() ==> !name_lt((#[trigger] self.pairs()[i]).0, name@),
    {
        proof {
            name_order_facts();
        }
        let mut low: usize = 0;
        let mut high: usize = self.entries.len();
        while low < high
            invariant
                self.wf(),
                low <= high <= self.pairs().len(),
                self.pairs().len() == self.entries@.len(),
                forall|a: Seq<char>, b: Seq<char>, c: Seq<char>| #[trigger]
                    name_lt(a, b) && #[trigger] name_lt(b, c) ==> name_lt(a, c),
                forall|i: int| 0 <= i < low ==> name_lt((#[trigger] self.pairs()[i]).0, name@),
                forall|i: int|
                    high <= i < self.pairs().len() ==> !name_lt(
                        (#[trigger] self.pairs()[i]).0,
                        name@,
                    ),
            decreases high - low,
        {
            let middle: usize = low + (high - low) / 2;
            let before: bool = match order_names(self.entries[middle].0.as_str(), name) {
                KeyOrder::Less => true,
                _ => false,
            };
            assert(before == name_lt(self.pairs()[middle as int].0, name@));
            if before {
                low = middle + 1;
            } else {
                high = middle;
            }
        }
        low
    }

    /// Finds a name.
    fn find(&self, name: &str) -> (found: Option<usize>)
        requires
            self.wf(),
        ensures
            match found {
                Some(index) => index < self.pairs().len() && self.pairs()[index as int].0 == name@,
                None => !has_key(self.pairs(), name@),
            },
    {
        let index: usize = self.lower_bound(name);
        proof {
            name_order_facts();
        }
        if index < self.entries.len() {
            let same: bool = match order_names(self.entries[index].0.as_str(), name) {
                KeyOrder::Equal => true,
                _ => false,
            };
            assert(same == (self.pairs()[index as int].0 == name@));
            if same {
                return Some(index);
            }
        }
        assert forall|i: int| 0 <= i < self.pairs().len() implies (#[trigger] self.pairs()[i]).0
            != name@ by {
            if i > index {
                assert(name_lt(self.pairs()[index as int].0, self.pairs()[i].0));
            }
        }
        None
    }

    /// Looks a name up.
    pub fn get(&self, name: &str) -> (value: Option<&V>)
        requires
            self.wf(),
        ensures
            match value {
                Some(value) => self.map().dom().contains(name@) && value.deep_view()
                    == self.map()[name@],
                None => !self.map().dom().contains(name@),
            },
    {
        match self.find(name) {
            Some(index) => {
                proof {
                    sorted_names_are_distinct(self.pairs());
                    pair_is_in_map(self.pairs(), index as int);
                }
                Some(&self.entries[index].1)
            },
            None => None,
        }
    }

    /// Tells whether a name is in the map.
    pub fn contains_key(&self, name: &str) -> (found: bool)
        requires
            self.wf(),
        ensures
            found == self.map().dom().contains(name@),
    {
        match self.find(name) {
            Some(index) => {
                proof {
                    sorted_names_are_distinct(self.pairs());
                    pair_is_in_map(self.pairs(), index as int);
                }
                true
            },
            None => false,
        }
    }

    /// Sets the value of a name and returns the value it had.
    pub fn insert(&mut self, name: String, value: V) -> (previous: Option<V>)
        requires
            old(self).wf(),
        ensures
            final(self).wf(),
            final(self).map() == old(self).map().insert(name@, value.deep_view()),
            match previous {
                Some(previous) => old(self).map().dom().contains(name@) && previous.deep_view()
                    == old(self).map()[name@],
                None => !old(self).map().dom().contains(name@),
            },
    {
        let ghost before = self.pairs();
        let ghost added = (name@, value.deep_view());
        proof {
            name_order_facts();
            sorted_names_are_distinct(before);
        }
        let index: usize = self.lower_bound(name.as_str());
        let found: Option<usize> = self.find(name.as_str());
        if let Some(at) = found {
            let (_, previous): (String, V) = self.entries.remove(at);
            self.entries.insert(at, (name, value));
            proof {
                assert(self.pairs() =~= before.update(at as int, added));
                pair_is_in_map(before, at as int);
                map_of_update(before, at as int, added.1);
                assert forall|i: int, j: int| 0 <= i < j < self.pairs().len() implies name_lt(
                    (#[trigger] self.pairs()[i]).0,
                    (#[trigger] self.pairs()[j]).0,
                ) by {
                    assert(name_lt(before[i].0, before[j].0));
                }
            }
            return Some(previous);
        }
        self.entries.insert(index, (name, value));
        proof {
            assert(self.pairs() =~= before.insert(index as int, added));
            map_of_insert(before, index as int, added.0, added.1);
            assert forall|i: int, j: int| 0 <= i < j < self.pairs().len() implies name_lt(
                (#[trigger] self.pairs()[i]).0,
                (#[trigger] self.pairs()[j]).0,
            ) by {
                let a = if i < index {
                    i
                } else {
                    i - 1
                };
                let b = if j < index {
                    j
                } else {
                    j - 1
                };
                if i == index {
                    assert(self.pairs()[j] == before[b]);
                    assert(!name_lt(before[b].0, added.0));
                    assert(before[b].0 != added.0);
                } else if j == index {
                    assert(self.pairs()[i] == before[a]);
                    assert(name_lt(before[a].0, added.0));
                } else {
                    assert(self.pairs()[i] == before[a]);
                    assert(self.pairs()[j] == before[b]);
                    assert(name_lt(before[a].0, before[b].0));
                }
            }
        }
        None
    }

    /// Adds a name that comes after all others.
    pub fn push_last(&mut self, name: String, value: V)
        requires
            old(self).wf(),
            old(self).pairs().len() > 0 ==> name_lt(old(self).pairs().last().0, name@),
        ensures
            final(self).wf(),
            final(self).pairs() == old(self).pairs().push((name@, value.deep_view())),
    {
        let ghost before = self.pairs();
        let ghost added = (name@, value.deep_view());
        self.entries.push((name, value));
        proof {
            name_order_facts();
            assert(self.pairs() =~= before.push(added));
            assert forall|i: int, j: int| 0 <= i < j < self.pairs().len() implies name_lt(
                (#[trigger] self.pairs()[i]).0,
                (#[trigger] self.pairs()[j]).0,
            ) by {
                if j == before.len() {
                    if i < before.len() - 1 {
                        assert(name_lt(before[i].0, before.last().0));
                    }
                } else {
                    assert(name_lt(before[i].0, before[j].0));
                }
            }
        }
    }

    /// Removes a name and returns the value it had.
    pub fn remove(&mut self, name: &str) -> (previous: Option<V>)
        requires
            old(self).wf(),
        ensures
            final(self).wf(),
            final(self).map() == old(self).map().remove(name@),
            match previous {
                Some(previous) => old(self).map().dom().contains(name@) && previous.deep_view()
                    == old(self).map()[name@],
                None => !old(self).map().dom().contains(name@) && final(self).pairs() == old(
                    self,
                ).pairs(),
            },
    {
        let ghost before = self.pairs();
        proof {
            sorted_names_are_distinct(before);
        }
        match self.find(name) {
            Some(at) => {
                let (_, previous): (String, V) = self.entries.remove(at);
                proof {
                    assert(self.pairs() =~= before.remove(at as int));
                    pair_is_in_map(before, at as int);
                    map_of_remove(before, at as int);
                    assert forall|i: int, j: int| 0 <= i < j < self.pairs().len() implies name_lt(
                        (#[trigger] self.pairs()[i]).0,
                        (#[trigger] self.pairs()[j]).0,
                    ) by {
                        let a = if i < at {
                            i
                        } else {
                            i + 1
                        };
                        let b = if j < at {
                            j
                        } else {
                            j + 1
                        };
                        assert(name_lt(before[a].0, before[b].0));
                    }
                }
                Some(previous)
            },
            None => {
                assert(map_of(before).remove(name@) =~= map_of(before));
                None
            },
        }
    }

    /// Copies the map.
    pub fn copy(&self) -> (copy: NameMap<V>)
        ensures
            copy.pairs() == self.pairs(),
    {
        let mut entries: Vec<(String, V)> = Vec::with_capacity(self.entries.len());
        let mut i: usize = 0;
        while i < self.entries.len()
            invariant
                i <= self.entries@.len(),
                entries@.len() == i,
                forall|j: int|
                    0 <= j < i ==> (#[trigger] entries@[j]).0@ == self.entries@[j].0@
                        && entries@[j].1.deep_view() == self.entries@[j].1.deep_view(),
            decreases self.entries@.len() - i,
        {
            entries.push((self.entries[i].0.clone(), self.entries[i].1.copy_model()));
            i += 1;
        }
        let copy = NameMap { entries };
        proof {
            assert(copy.pairs() =~= self.pairs());
        }
        copy
    }

    /// Tells whether two maps hold the same names with the same values.
    pub fn same(&self, other: &NameMap<V>) -> (same: bool)
        ensures
            same == (self.pairs() == other.pairs()),
    {
        if self.entries.len() != other.entries.len() {
            assert(self.pairs().len() != other.pairs().len());
            return false;
        }
        let mut i: usize = 0;
        while i < self.entries.len()
            invariant
                self.entries@.len() == other.entries@.len(),
                i <= self.entries@.len(),
                forall|j: int| 0 <= j < i ==> self.pairs()[j] == #[trigger] other.pairs()[j],
            decreases self.entries@.len() - i,
        {
            let names: bool = match order_names(
                self.entries[i].0.as_str(),
                other.entries[i].0.as_str(),
            ) {
                KeyOrder::Equal => true,
                _ => false,
            };
            if !names || !self.entries[i].1.same_model(&other.entries[i].1) {
                assert(self.pairs()[i as int] != other.pairs()[i as int]);
                return false;
            }
            assert(self.pairs()[i as int] == other.pairs()[i as int]);
            i += 1;
        }
        proof {
            assert(self.pairs() =~= other.pairs());
        }
        true
    }
}

/// The pairs of a map, by increasing identifier.
pub open spec fn id_pairs(map: Map<u64, Sequence>) -> Seq<(u64, Sequence)> {
    choose|pairs: Seq<(u64, Sequence)>| ids_sorted(pairs) && #[trigger] map_of(pairs) == map
}

proof fn place_of_id(pairs: Seq<(u64, Sequence)>, id: u64) -> (at: int)
    requires
        ids_sorted(pairs),
        !has_key(pairs, id),
    ensures
        0 <= at <= pairs.len(),
        forall|i: int| 0 <= i < at ==> (#[trigger] pairs[i]).0 < id,
        forall|i: int| at <= i < pairs.len() ==> (#[trigger] pairs[i]).0 > id,
    decreases pairs.len(),
{
    if pairs.len() == 0 || pairs.last().0 < id {
        pairs.len() as int
    } else {
        let shorter = pairs.drop_last();
        assert forall|i: int| 0 <= i < shorter.len() implies shorter[i] == #[trigger] pairs[i] by {}
        assert(!has_key(shorter, id)) by {
            if has_key(shorter, id) {
                assert(pairs[position(shorter, id)].0 == id);
            }
        }
        assert(pairs[pairs.len() - 1].0 != id);
        place_of_id(shorter, id)
    }
}

proof fn some_pairs(map: Map<u64, Sequence>) -> (pairs: Seq<(u64, Sequence)>)
    requires
        map.dom().finite(),
    ensures
        ids_sorted(pairs),
        map_of(pairs) == map,
    decreases map.dom().len(),
{
    if map.dom().len() == 0 {
        let pairs = Seq::<(u64, Sequence)>::empty();
        assert(map.dom() =~= Set::empty());
        assert(map_of(pairs) =~= map);
        pairs
    } else {
        let id = map.dom().choose();
        let value = map[id];
        let before = some_pairs(map.remove(id));
        assert(!has_key(before, id)) by {
            if has_key(before, id) {
                assert(map_of(before).dom().contains(id));
            }
        }
        let at = place_of_id(before, id);
        let pairs = before.insert(at, (id, value));
        map_of_insert(before, at, id, value);
        assert(map.remove(id).insert(id, value) =~= map);
        assert forall|i: int, j: int| 0 <= i < j < pairs.len() implies (#[trigger] pairs[i]).0 < (
        #[trigger] pairs[j]).0 by {
            let a = if i < at {
                i
            } else {
                i - 1
            };
            let b = if j < at {
                j
            } else {
                j - 1
            };
            if i == at {
                assert(pairs[j] == before[b]);
            } else if j == at {
                assert(pairs[i] == before[a]);
            } else {
                assert(before[a].0 < before[b].0);
            }
        }
        pairs
    }
}

/// The pairs of a map are sorted and stand for it.
pub proof fn id_pairs_stand_for(map: Map<u64, Sequence>)
    requires
        map.dom().finite(),
    ensures
        ids_sorted(id_pairs(map)),
        map_of(id_pairs(map)) == map,
{
    let pairs = some_pairs(map);
    assert(map_of(pairs) == map);
}

/// Sorted pairs are those of the map that they stand for.
pub proof fn sorted_pairs_are_id_pairs(pairs: Seq<(u64, Sequence)>)
    requires
        ids_sorted(pairs),
    ensures
        id_pairs(map_of(pairs)) == pairs,
{
    let other = id_pairs(map_of(pairs));
    assert(ids_sorted(other) && map_of(other) == map_of(pairs));
    same_map_same_pairs(other, pairs);
}

proof fn same_map_same_pairs(a: Seq<(u64, Sequence)>, b: Seq<(u64, Sequence)>)
    requires
        ids_sorted(a),
        ids_sorted(b),
        map_of(a) == map_of(b),
    ensures
        a == b,
    decreases a.len(),
{
    if a.len() == 0 {
        if b.len() > 0 {
            pair_is_in_map(b, 0);
            assert(has_key(a, b[0].0));
        }
        assert(a =~= b);
    } else {
        let last_a = a.len() - 1;
        pair_is_in_map(a, last_a);
        let in_b = map_key_is_in_pairs(b, a[last_a].0);
        let last_b = b.len() - 1;
        pair_is_in_map(b, last_b);
        let in_a = map_key_is_in_pairs(a, b[last_b].0);
        assert(a[in_a].0 <= a[last_a].0);
        assert(b[in_b].0 <= b[last_b].0);
        assert(a[last_a] == b[last_b]);
        map_of_remove(a, last_a);
        map_of_remove(b, last_b);
        assert(a.remove(last_a) =~= a.drop_last());
        assert(b.remove(last_b) =~= b.drop_last());
        same_map_same_pairs(a.drop_last(), b.drop_last());
        assert(a =~= a.drop_last().push(a[last_a]));
        assert(b =~= b.drop_last().push(b[last_b]));
    }
}

/// An identifier above all others comes last.
pub proof fn last_id_pair(map: Map<u64, Sequence>, id: u64, value: Sequence)
    requires
        map.dom().finite(),
        id_pairs(map).len() > 0 ==> id_pairs(map).last().0 < id,
    ensures
        id_pairs(map.insert(id, value)) == id_pairs(map).push((id, value)),
{
    id_pairs_stand_for(map);
    let pairs = id_pairs(map);
    let longer = pairs.push((id, value));
    assert(!has_key(pairs, id)) by {
        if has_key(pairs, id) {
            let at = position(pairs, id);
            if at < pairs.len() - 1 {
                assert(pairs[at].0 < pairs[pairs.len() - 1].0);
            }
        }
    }
    map_of_insert(pairs, pairs.len() as int, id, value);
    assert(pairs.insert(pairs.len() as int, (id, value)) =~= longer);
    assert forall|i: int, j: int| 0 <= i < j < longer.len() implies (#[trigger] longer[i]).0 < (
    #[trigger] longer[j]).0 by {
        if j == pairs.len() && i < pairs.len() - 1 {
            assert(pairs[i].0 < pairs[pairs.len() - 1].0);
        }
    }
    sorted_pairs_are_id_pairs(longer);
}

/// Lists the pairs of a map by increasing identifier.
pub fn list_id_pairs(map: &BTreeMap<u64, Sequence>) -> (pairs: Vec<(u64, Sequence)>)
    ensures
        pairs@ == id_pairs(map@),
        ids_sorted(pairs@),
        map_of(pairs@) == map@,
{
    let mut pairs: Vec<(u64, Sequence)> = Vec::new();
    let iterator = map.iter();
    let ghost all = vstd::std_specs::iter::IteratorSpec::remaining(&iterator);
    for entry in entries: iterator
        invariant
            entries.seq() == all,
            pairs@.len() == entries.index(),
            forall|i: int|
                0 <= i < pairs@.len() ==> #[trigger] pairs@[i] == (*all[i].0, *all[i].1),
    {
        pairs.push((*entry.0, *entry.1));
    }
    proof {
        assert(pairs@.len() == all.len());
        let ids = all.map_values(|entry: (&u64, &Sequence)| *entry.0);
        assert(vstd::std_specs::btree::increasing_seq(ids));
        assert forall|i: int, j: int| 0 <= i < j < pairs@.len() implies (#[trigger] pairs@[i]).0
            < (#[trigger] pairs@[j]).0 by {
            assert(ids[i] == pairs@[i].0 && ids[j] == pairs@[j].0);
            assert(vstd::std_specs::cmp::OrdSpec::cmp_spec(&ids[i], &ids[j]) is Less);
        }
        let other = map_of(pairs@);
        assert forall|id: u64| other.dom().contains(id) <==> map@.dom().contains(id) by {
            if has_key(pairs@, id) {
                let at = position(pairs@, id);
                assert(map@.contains_key(*all[at].0));
            }
            if map@.dom().contains(id) {
                let at = choose|at: int| 0 <= at < all.len() && all[at] == (&id, &map@[id]);
                assert(pairs@[at].0 == id);
            }
        }
        assert forall|id: u64| other.dom().contains(id) implies other[id] == map@[id] by {
            let at = map_key_is_in_pairs(pairs@, id);
            assert(map@[*all[at].0] == *all[at].1);
        }
        assert(other =~= map@);
        sorted_pairs_are_id_pairs(pairs@);
    }
    pairs
}

/// A map without identifiers has no pairs.
pub proof fn no_id_pairs()
    ensures
        id_pairs(Map::<u64, Sequence>::empty()) == Seq::<(u64, Sequence)>::empty(),
{
    let none = Seq::<(u64, Sequence)>::empty();
    assert(map_of(none) =~= Map::<u64, Sequence>::empty());
    sorted_pairs_are_id_pairs(none);
}

/// Tells whether two maps hold the same identifiers with the same commits.
pub fn same_ids(left: &BTreeMap<u64, Sequence>, right: &BTreeMap<u64, Sequence>) -> (same: bool)
    ensures
        same == (id_pairs(left@) == id_pairs(right@)),
{
    let ours: Vec<(u64, Sequence)> = list_id_pairs(left);
    let theirs: Vec<(u64, Sequence)> = list_id_pairs(right);
    if ours.len() != theirs.len() {
        return false;
    }
    let mut i: usize = 0;
    while i < ours.len()
        invariant
            ours@ == id_pairs(left@),
            theirs@ == id_pairs(right@),
            ours@.len() == theirs@.len(),
            i <= ours@.len(),
            forall|j: int| 0 <= j < i ==> ours@[j] == theirs@[j],
        decreases ours@.len() - i,
    {
        if ours[i].0 != theirs[i].0 || ours[i].1.get() != theirs[i].1.get() {
            assert(ours@[i as int] != theirs@[i as int]);
            return false;
        }
        i += 1;
    }
    proof {
        assert(ours@ =~= theirs@);
    }
    true
}

} // verus!
