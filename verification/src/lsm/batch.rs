//! Grouping of the keys of a batched point read.
use vstd::prelude::*;

use crate::bytes_order;
use crate::point_value::{PointValueSource, SourceView};

verus! {

/// Smallest batch that is always grouped.
pub const POINT_READ_BATCH_GROUPING_MIN_KEYS: usize = 8;

/// Largest batch whose keys are compared pair by pair.
pub const POINT_READ_BATCH_LINEAR_DEDUP_MAX_KEYS: usize = 32;

/// The distinct keys of a batch and where each occurs.
#[derive(Debug)]
pub struct PointReadBatch {
    /// Position of the first occurrence of each distinct key.
    pub unique_keys: Vec<usize>,
    /// Positions of every occurrence of each distinct key.
    pub positions: Vec<Vec<usize>>,
    /// Number of keys in the batch.
    pub input_len: usize,
}

/// Whether no key of a list occurs twice.
pub open spec fn keys_are_unique(keys: Seq<Vec<u8>>) -> bool {
    forall|i: int, j: int|
        0 <= i < j < keys.len() ==> (#[trigger] keys[i])@ != (#[trigger] keys[j])@
}

impl PointReadBatch {
    /// Whether the batch lists the distinct keys once, and each position under its
    /// key.
    pub open spec fn wf(&self, keys: Seq<Vec<u8>>) -> bool {
        self.input_len == keys.len() && self.groups(keys, keys.len() as int)
    }

    /// Whether the batch groups the first `count` keys: each distinct key under the first
    /// position at which it stands, and each position once, under its key, in order.
    pub open spec fn groups(&self, keys: Seq<Vec<u8>>, count: int) -> bool {
        &&& count <= keys.len()
        &&& self.positions@.len() == self.unique_keys@.len()
        &&& self.unique_keys@.len() <= count
        &&& forall|u: int| 0 <= u < self.unique_keys@.len() ==> #[trigger] self.unique_keys@[u] < count
        &&& forall|u: int, v: int|
            0 <= u < v < self.unique_keys@.len() ==> keys[(
            #[trigger] self.unique_keys@[u]) as int]@ != keys[(
            #[trigger] self.unique_keys@[v]) as int]@
        &&& forall|u: int, k: int|
            #![trigger self.positions@[u]@[k]]
            0 <= u < self.positions@.len() && 0 <= k < self.positions@[u]@.len() ==> {
                &&& self.positions@[u]@[k] < count
                &&& keys[self.positions@[u]@[k] as int]@ == keys[self.unique_keys@[u] as int]@
            }
        &&& forall|p: int| 0 <= p < count ==> #[trigger] self.lists(p)
        &&& forall|u: int|
            0 <= u < self.positions@.len() ==> (#[trigger] self.positions@[u])@.len() > 0
                && self.unique_keys@[u] == self.positions@[u]@[0]
        &&& forall|u: int, v: int|
            0 <= u < v < self.unique_keys@.len() ==> (#[trigger] self.unique_keys@[u]) < (
            #[trigger] self.unique_keys@[v])
        &&& forall|u: int, j: int, k: int|
            #![trigger self.positions@[u]@[j], self.positions@[u]@[k]]
            0 <= u < self.positions@.len() && 0 <= j < k < self.positions@[u]@.len()
                ==> self.positions@[u]@[j] < self.positions@[u]@[k]
    }

    /// Whether a position is listed under some key.
    pub open spec fn lists(&self, position: int) -> bool {
        exists|u: int, k: int|
            #![trigger self.positions@[u]@[k]]
            0 <= u < self.positions@.len() && 0 <= k < self.positions@[u]@.len()
                && self.positions@[u]@[k] == position
    }

    /// Returns the distinct key that stands at `position`.
    pub proof fn unit_of(&self, keys: Seq<Vec<u8>>, position: int) -> (u: int)
        requires
            self.wf(keys),
            0 <= position < keys.len(),
        ensures
            0 <= u < self.unique_keys@.len(),
            keys[self.unique_keys@[u] as int]@ == keys[position]@,
            exists|k: int|
                0 <= k < self.positions@[u]@.len() && #[trigger] self.positions@[u]@[k] == position,
    {
        assert(self.lists(position));
        let (u, k) = choose|u: int, k: int|
            #![trigger self.positions@[u]@[k]]
            0 <= u < self.positions@.len() && 0 <= k < self.positions@[u]@.len()
                && self.positions@[u]@[k] == position;
        u
    }

    /// Groups the keys of a batch.
    pub fn from_keys(keys: &Vec<Vec<u8>>) -> (batch: PointReadBatch)
        ensures
            batch.wf(keys@),
    {
        if keys.len() <= POINT_READ_BATCH_LINEAR_DEDUP_MAX_KEYS {
            return PointReadBatch::from_keys_linear(keys);
        }
        let mut batch = PointReadBatch {
            unique_keys: Vec::new(),
            positions: Vec::new(),
            input_len: keys.len(),
        };
        // Positions in `unique_keys`, in the order of their keys.
        let mut order: Vec<usize> = Vec::new();
        let mut position: usize = 0;
        while position < keys.len()
            invariant
                position <= keys@.len(),
                batch.input_len == keys@.len(),
                batch.groups(keys@, position as int),
                order@.len() == batch.unique_keys@.len(),
                orders(order@, batch.unique_keys@, keys@),
                covers_units(order@, batch.unique_keys@.len() as int),
            decreases keys@.len() - position,
        {
            let slot: usize = find_slot(&order, &batch.unique_keys, keys, position);
            let known: bool = slot < order.len() && bytes_order::bytes_equal(
                keys[batch.unique_keys[order[slot]]].as_slice(),
                keys[position].as_slice(),
            );
            if known {
                let unit: usize = order[slot];
                batch.add_position(unit, position, Ghost(keys@));
            } else {
                proof {
                    new_key_is_absent(
                        order@,
                        batch.unique_keys@,
                        keys@,
                        slot as int,
                        position as int,
                    );
                }
                let unit: usize = batch.unique_keys.len();
                let ghost old_order = order@;
                let ghost old_units = batch.unique_keys@;
                batch.add_key(position, Ghost(keys@));
                order.insert(slot, unit);
                proof {
                    inserted_order(
                        old_order,
                        order@,
                        old_units,
                        batch.unique_keys@,
                        keys@,
                        slot as int,
                    );
                }
            }
            position += 1;
        }
        batch
    }

    /// Groups the keys of a small batch, comparing them pair by pair.
    pub fn from_keys_linear(keys: &Vec<Vec<u8>>) -> (batch: PointReadBatch)
        ensures
            batch.wf(keys@),
    {
        let mut batch = PointReadBatch {
            unique_keys: Vec::new(),
            positions: Vec::new(),
            input_len: keys.len(),
        };
        let mut position: usize = 0;
        while position < keys.len()
            invariant
                position <= keys@.len(),
                batch.input_len == keys@.len(),
                batch.groups(keys@, position as int),
            decreases keys@.len() - position,
        {
            let mut unit: usize = 0;
            while unit < batch.unique_keys.len()
                invariant
                    position < keys@.len(),
                    batch.groups(keys@, position as int),
                    unit <= batch.unique_keys@.len(),
                    forall|u: int|
                        0 <= u < unit ==> keys@[(#[trigger] batch.unique_keys@[u]) as int]@
                            != keys@[position as int]@,
                ensures
                    unit <= batch.unique_keys@.len(),
                    forall|u: int|
                        0 <= u < unit ==> keys@[(#[trigger] batch.unique_keys@[u]) as int]@
                            != keys@[position as int]@,
                    unit < batch.unique_keys@.len() ==> keys@[batch.unique_keys@[unit as int] as int]@
                        == keys@[position as int]@,
                decreases batch.unique_keys@.len() - unit,
            {
                if bytes_order::bytes_equal(
                    keys[batch.unique_keys[unit]].as_slice(),
                    keys[position].as_slice(),
                ) {
                    break;
                }
                unit += 1;
            }
            if unit < batch.unique_keys.len() {
                batch.add_position(unit, position, Ghost(keys@));
            } else {
                batch.add_key(position, Ghost(keys@));
            }
            position += 1;
        }
        batch
    }

    fn add_position(&mut self, unit: usize, position: usize, Ghost(keys): Ghost<Seq<Vec<u8>>>)
        requires
            old(self).groups(keys, position as int),
            position < keys.len(),
            unit < old(self).unique_keys@.len(),
            keys[old(self).unique_keys@[unit as int] as int]@ == keys[position as int]@,
        ensures
            final(self).groups(keys, position + 1),
            final(self).input_len == old(self).input_len,
            final(self).unique_keys == old(self).unique_keys,
    {
        let ghost before = *self;
        let mut list: Vec<usize> = Vec::new();
        std::mem::swap(&mut list, &mut self.positions[unit]);
        let ghost old_list = list@;
        list.push(position);
        std::mem::swap(&mut list, &mut self.positions[unit]);
        proof {
            assert(self.positions@[unit as int]@ == old_list.push(position));
            assert forall|p: int| 0 <= p < position + 1 implies #[trigger] self.lists(p) by {
                if p < position {
                    assert(before.lists(p));
                    let (u, k) = choose|u: int, k: int|
                        #![trigger before.positions@[u]@[k]]
                        0 <= u < before.positions@.len() && 0 <= k < before.positions@[u]@.len()
                            && before.positions@[u]@[k] == p;
                    assert(self.positions@[u]@[k] == p);
                } else {
                    assert(self.positions@[unit as int]@[old_list.len() as int] == p);
                }
            }
            assert forall|u: int, k: int|
                #![trigger self.positions@[u]@[k]]
                0 <= u < self.positions@.len() && 0 <= k < self.positions@[u]@.len() implies {
                &&& self.positions@[u]@[k] < position + 1
                &&& keys[self.positions@[u]@[k] as int]@ == keys[self.unique_keys@[u] as int]@
            } by {
                if u != unit {
                    assert(before.positions@[u]@[k] < position);
                } else if k < old_list.len() {
                    assert(before.positions@[u]@[k] < position);
                }
            }
            assert forall|u: int| 0 <= u < self.positions@.len() implies (
            #[trigger] self.positions@[u])@.len() > 0 && self.unique_keys@[u]
                == self.positions@[u]@[0] by {
                assert(before.unique_keys@[u] == before.positions@[u]@[0]);
            }
            assert forall|u: int, j: int, k: int|
                #![trigger self.positions@[u]@[j], self.positions@[u]@[k]]
                0 <= u < self.positions@.len() && 0 <= j < k
                    < self.positions@[u]@.len() implies self.positions@[u]@[j]
                < self.positions@[u]@[k] by {
                assert(before.positions@[u]@[j] < position);
                if u != unit || k < old_list.len() {
                    assert(before.positions@[u]@[k] == self.positions@[u]@[k]);
                }
            }
        }
    }

    fn add_key(&mut self, position: usize, Ghost(keys): Ghost<Seq<Vec<u8>>>)
        requires
            old(self).groups(keys, position as int),
            position < keys.len(),
            forall|u: int|
                0 <= u < old(self).unique_keys@.len() ==> keys[(
                #[trigger] old(self).unique_keys@[u]) as int]@ != keys[position as int]@,
        ensures
            final(self).groups(keys, position + 1),
            final(self).input_len == old(self).input_len,
            final(self).unique_keys@ == old(self).unique_keys@.push(position),
    {
        let ghost before = *self;
        let mut list: Vec<usize> = Vec::with_capacity(1);
        list.push(position);
        self.unique_keys.push(position);
        self.positions.push(list);
        proof {
            let last = before.positions@.len() as int;
            assert forall|p: int| 0 <= p < position + 1 implies #[trigger] self.lists(p) by {
                if p < position {
                    assert(before.lists(p));
                    let (u, k) = choose|u: int, k: int|
                        #![trigger before.positions@[u]@[k]]
                        0 <= u < before.positions@.len() && 0 <= k < before.positions@[u]@.len()
                            && before.positions@[u]@[k] == p;
                    assert(self.positions@[u]@[k] == p);
                } else {
                    assert(self.positions@[last]@[0] == p);
                }
            }
            assert forall|u: int, k: int|
                #![trigger self.positions@[u]@[k]]
                0 <= u < self.positions@.len() && 0 <= k < self.positions@[u]@.len() implies {
                &&& self.positions@[u]@[k] < position + 1
                &&& keys[self.positions@[u]@[k] as int]@ == keys[self.unique_keys@[u] as int]@
            } by {
                if u < last {
                    assert(before.positions@[u]@[k] < position);
                }
            }
            assert forall|u: int| 0 <= u < self.positions@.len() implies (
            #[trigger] self.positions@[u])@.len() > 0 && self.unique_keys@[u]
                == self.positions@[u]@[0] by {
                if u < last {
                    assert(before.unique_keys@[u] == before.positions@[u]@[0]);
                }
            }
            assert forall|u: int, j: int, k: int|
                #![trigger self.positions@[u]@[j], self.positions@[u]@[k]]
                0 <= u < self.positions@.len() && 0 <= j < k
                    < self.positions@[u]@.len() implies self.positions@[u]@[j]
                < self.positions@[u]@[k] by {
                assert(before.positions@[u]@[j] < before.positions@[u]@[k]);
            }
        }
    }

    /// Hands the value of each distinct key to every position of the key.
    pub(crate) fn scatter(
        &self,
        unique_values: &Vec<Option<PointValueSource>>,
        Ghost(keys): Ghost<Seq<Vec<u8>>>,
    ) -> (values: Vec<Option<PointValueSource>>)
        requires
            self.wf(keys),
            unique_values@.len() == self.unique_keys@.len(),
        ensures
            values@.len() == self.input_len,
            forall|u: int, k: int|
                #![trigger self.positions@[u]@[k]]
                0 <= u < self.positions@.len() && 0 <= k < self.positions@[u]@.len() ==> view_of(
                    values@[self.positions@[u]@[k] as int],
                ) == view_of(unique_values@[u]),
    {
        let mut values: Vec<Option<PointValueSource>> = Vec::with_capacity(self.input_len);
        let mut p: usize = 0;
        while p < self.input_len
            invariant
                p <= self.input_len,
                values@.len() == p,
            decreases self.input_len - p,
        {
            values.push(None);
            p += 1;
        }
        let mut u: usize = 0;
        while u < self.positions.len()
            invariant
                self.wf(keys),
                u <= self.positions@.len(),
                unique_values@.len() == self.unique_keys@.len(),
                values@.len() == self.input_len,
                forall|a: int, k: int|
                    #![trigger self.positions@[a]@[k]]
                    0 <= a < u && 0 <= k < self.positions@[a]@.len() ==> view_of(
                        values@[self.positions@[a]@[k] as int],
                    ) == view_of(unique_values@[a]),
            decreases self.positions@.len() - u,
        {
            let list: &Vec<usize> = &self.positions[u];
            let mut k: usize = 0;
            while k < list.len()
                invariant
                    self.wf(keys),
                    u < self.positions@.len(),
                    list@ == self.positions@[u as int]@,
                    k <= list@.len(),
                    unique_values@.len() == self.unique_keys@.len(),
                    values@.len() == self.input_len,
                    forall|a: int, b: int|
                        #![trigger self.positions@[a]@[b]]
                        (0 <= a < u && 0 <= b < self.positions@[a]@.len()) || (a == u && 0 <= b < k)
                            ==> view_of(values@[self.positions@[a]@[b] as int]) == view_of(
                            unique_values@[a],
                        ),
                decreases list@.len() - k,
            {
                let at: usize = list[k];
                let value: Option<PointValueSource> = clone_found(&unique_values[u]);
                let ghost before = values@;
                assert(self.positions@[u as int]@[k as int] == at);
                values.set(at, value);
                proof {
                    assert forall|a: int, b: int|
                        #![trigger self.positions@[a]@[b]]
                        (0 <= a < u && 0 <= b < self.positions@[a]@.len()) || (a == u && 0 <= b < k
                            + 1) implies view_of(values@[self.positions@[a]@[b] as int])
                        == view_of(unique_values@[a]) by {
                        if self.positions@[a]@[b] == at {
                            if a != u {
                                assert(keys[self.unique_keys@[a] as int]@
                                    == keys[self.unique_keys@[u as int] as int]@);
                            }
                        } else {
                            assert(values@[self.positions@[a]@[b] as int]
                                == before[self.positions@[a]@[b] as int]);
                        }
                    }
                }
                k += 1;
            }
            u += 1;
        }
        values
    }
}

/// Mathematical form of an optional found value.
pub open spec fn view_of(value: Option<PointValueSource>) -> Option<SourceView> {
    match value {
        Some(value) => Some(value@),
        None => None,
    }
}

/// Copies an optional found value.
pub fn clone_found(value: &Option<PointValueSource>) -> (copy: Option<PointValueSource>)
    ensures
        view_of(copy) == view_of(*value),
{
    match value {
        Some(value) => Some(value.clone()),
        None => None,
    }
}

spec fn orders(order: Seq<usize>, units: Seq<usize>, keys: Seq<Vec<u8>>) -> bool {
    &&& forall|i: int| 0 <= i < order.len() ==> #[trigger] order[i] < units.len()
    &&& forall|u: int| 0 <= u < units.len() ==> #[trigger] units[u] < keys.len()
    &&& forall|i: int, j: int|
        0 <= i < j < order.len() ==> bytes_order::bytes_lt(
            keys[units[(#[trigger] order[i]) as int] as int]@,
            keys[units[(#[trigger] order[j]) as int] as int]@,
        )
}

spec fn covers_units(order: Seq<usize>, count: int) -> bool {
    forall|u: int| 0 <= u < count ==> #[trigger] order.contains(u as usize)
}

fn find_slot(order: &Vec<usize>, units: &Vec<usize>, keys: &Vec<Vec<u8>>, position: usize) -> (slot:
    usize)
    requires
        orders(order@, units@, keys@),
        position < keys@.len(),
    ensures
        slot <= order@.len(),
        forall|i: int|
            0 <= i < slot ==> bytes_order::bytes_lt(
                keys@[units@[(#[trigger] order@[i]) as int] as int]@,
                keys@[position as int]@,
            ),
        forall|i: int|
            slot <= i < order@.len() ==> !bytes_order::bytes_lt(
                keys@[units@[(#[trigger] order@[i]) as int] as int]@,
                keys@[position as int]@,
            ),
{
    let mut low: usize = 0;
    let mut high: usize = order.len();
    proof {
        bytes_order::bytes_order_facts();
    }
    while low < high
        invariant
            low <= high <= order@.len(),
            orders(order@, units@, keys@),
            position < keys@.len(),
            forall|a: Seq<u8>, b: Seq<u8>, c: Seq<u8>| #[trigger]
                bytes_order::bytes_lt(a, b) && #[trigger] bytes_order::bytes_lt(b, c)
                    ==> bytes_order::bytes_lt(a, c),
            forall|i: int|
                0 <= i < low ==> bytes_order::bytes_lt(
                    keys@[units@[(#[trigger] order@[i]) as int] as int]@,
                    keys@[position as int]@,
                ),
            forall|i: int|
                high <= i < order@.len() ==> !bytes_order::bytes_lt(
                    keys@[units@[(#[trigger] order@[i]) as int] as int]@,
                    keys@[position as int]@,
                ),
        decreases high - low,
    {
        let middle: usize = low + (high - low) / 2;
        let unit: usize = order[middle];
        let at: usize = units[unit];
        if bytes_order::bytes_before(keys[at].as_slice(), keys[position].as_slice()) {
            low = middle + 1;
        } else {
            high = middle;
        }
    }
    low
}

proof fn new_key_is_absent(
    order: Seq<usize>,
    units: Seq<usize>,
    keys: Seq<Vec<u8>>,
    slot: int,
    position: int,
)
    requires
        orders(order, units, keys),
        covers_units(order, units.len() as int),
        0 <= slot <= order.len(),
        units.len() <= usize::MAX,
        forall|i: int|
            0 <= i < slot ==> bytes_order::bytes_lt(
                keys[units[(#[trigger] order[i]) as int] as int]@,
                keys[position]@,
            ),
        forall|i: int|
            slot <= i < order.len() ==> !bytes_order::bytes_lt(
                keys[units[(#[trigger] order[i]) as int] as int]@,
                keys[position]@,
            ),
        slot < order.len() ==> keys[units[order[slot] as int] as int]@ != keys[position]@,
    ensures
        forall|u: int|
            0 <= u < units.len() ==> keys[(#[trigger] units[u]) as int]@ != keys[position]@,
        forall|i: int|
            slot <= i < order.len() ==> bytes_order::bytes_lt(
                keys[position]@,
                keys[units[(#[trigger] order[i]) as int] as int]@,
            ),
{
    bytes_order::bytes_order_facts();
    assert forall|i: int| slot <= i < order.len() implies bytes_order::bytes_lt(
        keys[position]@,
        keys[units[(#[trigger] order[i]) as int] as int]@,
    ) by {
        if i > slot {
            assert(bytes_order::bytes_lt(
                keys[units[order[slot] as int] as int]@,
                keys[units[order[i] as int] as int]@,
            ));
        }
    }
    assert forall|u: int| 0 <= u < units.len() implies keys[(#[trigger] units[u]) as int]@
        != keys[position]@ by {
        assert(order.contains(u as usize));
        let i = choose|i: int| 0 <= i < order.len() && order[i] == u as usize;
    }
}

proof fn inserted_order(
    old_order: Seq<usize>,
    order: Seq<usize>,
    old_units: Seq<usize>,
    units: Seq<usize>,
    keys: Seq<Vec<u8>>,
    slot: int,
)
    requires
        orders(old_order, old_units, keys),
        covers_units(old_order, old_units.len() as int),
        0 <= slot <= old_order.len(),
        units == old_units.push(units.last()),
        units.len() == old_units.len() + 1,
        units.last() < keys.len(),
        units.len() <= usize::MAX,
        order == old_order.insert(slot, old_units.len() as usize),
        forall|i: int|
            0 <= i < slot ==> bytes_order::bytes_lt(
                keys[old_units[(#[trigger] old_order[i]) as int] as int]@,
                keys[units.last() as int]@,
            ),
        forall|i: int|
            slot <= i < old_order.len() ==> bytes_order::bytes_lt(
                keys[units.last() as int]@,
                keys[old_units[(#[trigger] old_order[i]) as int] as int]@,
            ),
    ensures
        orders(order, units, keys),
        covers_units(order, units.len() as int),
{
    assert forall|i: int, j: int| 0 <= i < j < order.len() implies bytes_order::bytes_lt(
        keys[units[(#[trigger] order[i]) as int] as int]@,
        keys[units[(#[trigger] order[j]) as int] as int]@,
    ) by {
        if i < slot && j > slot {
            assert(order[j] == old_order[j - 1]);
            assert(old_order[i] < old_units.len() && old_order[j - 1] < old_units.len());
        } else if j > slot {
            assert(order[j] == old_order[j - 1]);
            assert(old_order[j - 1] < old_units.len());
            if i > slot {
                assert(order[i] == old_order[i - 1]);
                assert(old_order[i - 1] < old_units.len());
            }
        } else if i < slot {
            assert(old_order[i] < old_units.len());
            if j < slot {
                assert(old_order[j] < old_units.len());
            }
        }
    }
    assert forall|u: int| 0 <= u < units.len() implies #[trigger] order.contains(u as usize) by {
        if u < old_units.len() {
            assert(old_order.contains(u as usize));
            let i = choose|i: int| 0 <= i < old_order.len() && old_order[i] == u as usize;
            if i < slot {
                assert(order[i] == u as usize);
            } else {
                assert(order[i + 1] == u as usize);
            }
        } else {
            assert(order[slot] == u as usize);
        }
    }
}

/// Tells whether a batch is read key by key: it is small and repeats no key.
pub fn point_read_batch_prefers_single_key_path(keys: &Vec<Vec<u8>>) -> (prefers: bool)
    ensures
        prefers == (keys@.len() < 8 && keys_are_unique(keys@)),
{
    keys.len() < POINT_READ_BATCH_GROUPING_MIN_KEYS && point_read_batch_keys_are_unique(keys)
}

/// Tells whether no key of a batch occurs twice.
pub fn point_read_batch_keys_are_unique(keys: &Vec<Vec<u8>>) -> (unique: bool)
    ensures
        unique == keys_are_unique(keys@),
{
    let mut index: usize = 0;
    while index < keys.len()
        invariant
            index <= keys@.len(),
            forall|i: int, j: int|
                0 <= i < j < index ==> (#[trigger] keys@[i])@ != (#[trigger] keys@[j])@,
        decreases keys@.len() - index,
    {
        let mut earlier: usize = 0;
        while earlier < index
            invariant
                earlier <= index < keys@.len(),
                forall|i: int| 0 <= i < earlier ==> (#[trigger] keys@[i])@ != keys@[index as int]@,
            decreases index - earlier,
        {
            if bytes_order::bytes_equal(keys[earlier].as_slice(), keys[index].as_slice()) {
                return false;
            }
            earlier += 1;
        }
        index += 1;
    }
    true
}

} // verus!
