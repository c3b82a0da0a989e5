//! Which operations may run side by side.
use vstd::prelude::*;

use crate::io::path;
use crate::io::path::{same_path, PathName};
use crate::ordered;

verus! {

/// Something that an operation uses.
#[derive(Debug)]
pub enum PlatformIoResourceKey {
    /// A file.
    Object(String),
    /// The entries of a directory.
    Directory(String),
}

/// Mathematical form of a [`PlatformIoResourceKey`].
pub enum ResourceKey {
    /// See [`PlatformIoResourceKey::Object`].
    Object(PathName),
    /// See [`PlatformIoResourceKey::Directory`].
    Directory(PathName),
}

impl View for PlatformIoResourceKey {
    type V = ResourceKey;

    open spec fn view(&self) -> ResourceKey {
        match self {
            PlatformIoResourceKey::Object(path) => ResourceKey::Object(path::name_of(path@)),
            PlatformIoResourceKey::Directory(path) => ResourceKey::Directory(path::name_of(path@)),
        }
    }
}

impl PlatformIoResourceKey {
    /// Tells whether two keys name the same thing.
    pub fn same(&self, other: &PlatformIoResourceKey) -> (same: bool)
        ensures
            same == (self@ == other@),
    {
        match (self, other) {
            (PlatformIoResourceKey::Object(a), PlatformIoResourceKey::Object(b)) => {
                same_path(a.as_str(), b.as_str())
            },
            (PlatformIoResourceKey::Directory(a), PlatformIoResourceKey::Directory(b)) => {
                same_path(a.as_str(), b.as_str())
            },
            _ => false,
        }
    }
}

impl PartialEq for PlatformIoResourceKey {
    fn eq(&self, other: &PlatformIoResourceKey) -> (same: bool) {
        self.same(other)
    }
}

impl vstd::std_specs::cmp::PartialEqSpecImpl for PlatformIoResourceKey {
    open spec fn obeys_eq_spec() -> bool {
        true
    }

    open spec fn eq_spec(&self, other: &PlatformIoResourceKey) -> bool {
        self@ == other@
    }
}

impl Eq for PlatformIoResourceKey {
}

impl Clone for PlatformIoResourceKey {
    fn clone(&self) -> (copy: PlatformIoResourceKey)
        ensures
            copy@ == self@,
    {
        match self {
            PlatformIoResourceKey::Object(path) => PlatformIoResourceKey::Object(path.clone()),
            PlatformIoResourceKey::Directory(path) => PlatformIoResourceKey::Directory(
                path.clone(),
            ),
        }
    }
}

/// How an operation uses a resource.
#[derive(Debug, Clone, Copy, PartialEq, Eq, Structural)]
pub enum PlatformIoAccess {
    /// Beside others that share it.
    Shared,
    /// Alone.
    Exclusive,
}

/// One resource that an operation needs.
#[derive(Debug, PartialEq, Eq)]
pub struct PlatformIoResourceRequest {
    /// The resource.
    pub key: PlatformIoResourceKey,
    /// How it is used.
    pub access: PlatformIoAccess,
}

/// Mathematical form of a [`PlatformIoResourceRequest`].
pub struct Claim {
    /// See [`PlatformIoResourceRequest`].
    pub key: ResourceKey,
    /// See [`PlatformIoResourceRequest`].
    pub access: PlatformIoAccess,
}

impl View for PlatformIoResourceRequest {
    type V = Claim;

    open spec fn view(&self) -> Claim {
        Claim { key: self.key@, access: self.access }
    }
}

impl Clone for PlatformIoResourceRequest {
    fn clone(&self) -> (copy: PlatformIoResourceRequest)
        ensures
            copy@ == self@,
    {
        PlatformIoResourceRequest { key: self.key.clone(), access: self.access }
    }
}

/// The mathematical form of requests.
pub open spec fn claims(requests: Seq<PlatformIoResourceRequest>) -> Seq<Claim> {
    Seq::new(requests.len(), |i: int| requests[i]@)
}

/// Whether a resource is claimed.
pub open spec fn is_claimed(claims: Seq<Claim>, key: ResourceKey) -> bool {
    exists|i: int| 0 <= i < claims.len() && (#[trigger] claims[i]).key == key
}

/// Whether a resource is claimed for exclusive use.
pub open spec fn is_exclusive(claims: Seq<Claim>, key: ResourceKey) -> bool {
    exists|i: int|
        0 <= i < claims.len() && (#[trigger] claims[i]).key == key && claims[i].access
            == PlatformIoAccess::Exclusive
}

/// Whether no resource is claimed twice.
pub open spec fn claimed_once(claims: Seq<Claim>) -> bool {
    forall|i: int, j: int|
        0 <= i < j < claims.len() ==> (#[trigger] claims[i]).key != (#[trigger] claims[j]).key
}

/// Whether claims are others with each resource once: exclusive if any of them was.
pub open spec fn normalized(before: Seq<Claim>, after: Seq<Claim>) -> bool {
    &&& claimed_once(after)
    &&& forall|key: ResourceKey| #[trigger] is_claimed(after, key) == is_claimed(before, key)
    &&& forall|key: ResourceKey| #[trigger] is_exclusive(after, key) == is_exclusive(before, key)
}

/// Whether two operations must not run side by side.
pub open spec fn conflict(left: Seq<Claim>, right: Seq<Claim>) -> bool {
    exists|i: int, j: int|
        {
            &&& 0 <= i < left.len()
            &&& 0 <= j < right.len()
            &&& (#[trigger] left[i]).key == (#[trigger] right[j]).key
            &&& left[i].access == PlatformIoAccess::Exclusive || right[j].access
                == PlatformIoAccess::Exclusive
        }
}

/// Claims each resource once.
pub fn normalize_platform_io_resources(requests: Vec<PlatformIoResourceRequest>) -> (result: Vec<
    PlatformIoResourceRequest,
>)
    ensures
        normalized(claims(requests@), claims(result@)),
        result@.len() <= requests@.len(),
{
    let ghost all = claims(requests@);
    let mut result: Vec<PlatformIoResourceRequest> = Vec::new();
    let mut i: usize = 0;
    while i < requests.len()
        invariant
            i <= requests@.len(),
            all == claims(requests@),
            normalized(all.take(i as int), claims(result@)),
            result@.len() <= i,
        decreases requests@.len() - i,
    {
        let request: &PlatformIoResourceRequest = &requests[i];
        let ghost done = all.take(i as int);
        let ghost more = all.take(i + 1);
        let ghost before = claims(result@);
        let ghost wanted = request@;
        proof {
            assert(more =~= done.push(wanted));
            assert forall|key: ResourceKey| #[trigger] is_claimed(more, key) == (is_claimed(
                done,
                key,
            ) || key == wanted.key) by {
                assert(more[i as int].key == wanted.key);
                if is_claimed(done, key) {
                    let k = choose|k: int| 0 <= k < done.len() && (#[trigger] done[k]).key == key;
                    assert(more[k].key == key);
                }
                if is_claimed(more, key) {
                    let k = choose|k: int| 0 <= k < more.len() && (#[trigger] more[k]).key == key;
                    if k < i {
                        assert(done[k].key == key);
                    }
                }
            }
            assert forall|key: ResourceKey| #[trigger] is_exclusive(more, key) == (is_exclusive(
                done,
                key,
            ) || (key == wanted.key && wanted.access == PlatformIoAccess::Exclusive)) by {
                assert(more[i as int] == wanted);
                if is_exclusive(done, key) {
                    let k = choose|k: int|
                        0 <= k < done.len() && (#[trigger] done[k]).key == key && done[k].access
                            == PlatformIoAccess::Exclusive;
                    assert(more[k].key == key);
                }
                if is_exclusive(more, key) {
                    let k = choose|k: int|
                        0 <= k < more.len() && (#[trigger] more[k]).key == key && more[k].access
                            == PlatformIoAccess::Exclusive;
                    if k < i {
                        assert(done[k].key == key);
                    }
                }
            }
        }
        match find_request(&result, &request.key) {
            Some(at) => {
                assert(before[at as int].key == wanted.key);
                let exclusive: bool = match request.access {
                    PlatformIoAccess::Exclusive => true,
                    PlatformIoAccess::Shared => false,
                };
                if exclusive {
                    let key: PlatformIoResourceKey = result[at].key.clone();
                    result.set(
                        at,
                        PlatformIoResourceRequest { key, access: PlatformIoAccess::Exclusive },
                    );
                    proof {
                        let after = claims(result@);
                        assert(after =~= before.update(at as int, wanted));
                        updated_claims(before, at as int, wanted);
                    }
                }
            },
            None => {
                result.push(request.clone());
                proof {
                    let after = claims(result@);
                    assert(after =~= before.push(wanted));
                    pushed_claims(before, wanted);
                }
            },
        }
        i = i + 1;
    }
    assert(all.take(i as int) =~= all);
    result
}

proof fn updated_claims(before: Seq<Claim>, at: int, claim: Claim)
    requires
        0 <= at < before.len(),
        before[at].key == claim.key,
        claim.access == PlatformIoAccess::Exclusive,
        claimed_once(before),
    ensures
        claimed_once(before.update(at, claim)),
        forall|key: ResourceKey| #[trigger]
            is_claimed(before.update(at, claim), key) == is_claimed(before, key),
        forall|key: ResourceKey| #[trigger]
            is_exclusive(before.update(at, claim), key) == (is_exclusive(before, key) || key
                == claim.key),
{
    let after = before.update(at, claim);
    assert forall|key: ResourceKey| #[trigger] is_claimed(after, key) == is_claimed(before, key) by {
        if is_claimed(before, key) {
            let k = choose|k: int| 0 <= k < before.len() && (#[trigger] before[k]).key == key;
            assert(after[k].key == key);
        }
        if is_claimed(after, key) {
            let k = choose|k: int| 0 <= k < after.len() && (#[trigger] after[k]).key == key;
            assert(before[k].key == key);
        }
    }
    assert forall|key: ResourceKey| #[trigger] is_exclusive(after, key) == (is_exclusive(
        before,
        key,
    ) || key == claim.key) by {
        assert(after[at] == claim);
        if is_exclusive(before, key) {
            let k = choose|k: int|
                0 <= k < before.len() && (#[trigger] before[k]).key == key && before[k].access
                    == PlatformIoAccess::Exclusive;
            assert(after[k].key == key);
        }
        if is_exclusive(after, key) {
            let k = choose|k: int|
                0 <= k < after.len() && (#[trigger] after[k]).key == key && after[k].access
                    == PlatformIoAccess::Exclusive;
            if k != at {
                assert(before[k].key == key);
            }
        }
    }
}

proof fn pushed_claims(before: Seq<Claim>, claim: Claim)
    ensures
        claimed_once(before) && !is_claimed(before, claim.key) ==> claimed_once(
            before.push(claim),
        ),
        forall|key: ResourceKey| #[trigger]
            is_claimed(before.push(claim), key) == (is_claimed(before, key) || key == claim.key),
        forall|key: ResourceKey| #[trigger]
            is_exclusive(before.push(claim), key) == (is_exclusive(before, key) || (key == claim.key
                && claim.access == PlatformIoAccess::Exclusive)),
{
    let after = before.push(claim);
    let last = before.len() as int;
    assert(after[last] == claim);
    if claimed_once(before) && !is_claimed(before, claim.key) {
        assert forall|i: int, j: int| 0 <= i < j < after.len() implies (#[trigger] after[i]).key != (
        #[trigger] after[j]).key by {
            assert(after[i] == before[i]);
            if j < last {
                assert(after[j] == before[j]);
            }
        }
    }
    assert forall|key: ResourceKey| #[trigger] is_claimed(after, key) == (is_claimed(before, key)
        || key == claim.key) by {
        if is_claimed(before, key) {
            let k = choose|k: int| 0 <= k < before.len() && (#[trigger] before[k]).key == key;
            assert(after[k].key == key);
        }
        if is_claimed(after, key) {
            let k = choose|k: int| 0 <= k < after.len() && (#[trigger] after[k]).key == key;
            if k < last {
                assert(before[k].key == key);
            }
        }
    }
    assert forall|key: ResourceKey| #[trigger] is_exclusive(after, key) == (is_exclusive(
        before,
        key,
    ) || (key == claim.key && claim.access == PlatformIoAccess::Exclusive)) by {
        if is_exclusive(before, key) {
            let k = choose|k: int|
                0 <= k < before.len() && (#[trigger] before[k]).key == key && before[k].access
                    == PlatformIoAccess::Exclusive;
            assert(after[k].key == key);
        }
        if is_exclusive(after, key) {
            let k = choose|k: int|
                0 <= k < after.len() && (#[trigger] after[k]).key == key && after[k].access
                    == PlatformIoAccess::Exclusive;
            if k < last {
                assert(before[k].key == key);
            }
        }
    }
}

fn find_request(requests: &Vec<PlatformIoResourceRequest>, key: &PlatformIoResourceKey) -> (found:
    Option<usize>)
    ensures
        match found {
            Some(at) => at < requests@.len() && claims(requests@)[at as int].key == key@,
            None => !is_claimed(claims(requests@), key@),
        },
{
    let mut i: usize = 0;
    while i < requests.len()
        invariant
            i <= requests@.len(),
            forall|j: int| 0 <= j < i ==> (#[trigger] claims(requests@)[j]).key != key@,
        decreases requests@.len() - i,
    {
        assert(claims(requests@)[i as int] == requests@[i as int]@);
        if requests[i].key.same(key) {
            return Some(i);
        }
        i = i + 1;
    }
    None
}

/// Tells whether two operations must not run side by side.
pub fn platform_io_resources_conflict(
    left: &Vec<PlatformIoResourceRequest>,
    right: &Vec<PlatformIoResourceRequest>,
) -> (conflicts: bool)
    ensures
        conflicts == conflict(claims(left@), claims(right@)),
{
    let ghost a = claims(left@);
    let ghost b = claims(right@);
    let mut i: usize = 0;
    while i < left.len()
        invariant
            i <= left@.len(),
            a == claims(left@),
            b == claims(right@),
            forall|k: int, j: int|
                0 <= k < i && 0 <= j < b.len() && (#[trigger] a[k]).key == (#[trigger] b[j]).key
                    ==> a[k].access == PlatformIoAccess::Shared && b[j].access
                    == PlatformIoAccess::Shared,
        decreases left@.len() - i,
    {
        assert(a[i as int] == left@[i as int]@);
        let mut j: usize = 0;
        while j < right.len()
            invariant
                i < left@.len(),
                j <= right@.len(),
                a == claims(left@),
                b == claims(right@),
                a[i as int] == left@[i as int]@,
                forall|k: int|
                    0 <= k < j && a[i as int].key == (#[trigger] b[k]).key ==> a[i as int].access
                        == PlatformIoAccess::Shared && b[k].access == PlatformIoAccess::Shared,
            decreases right@.len() - j,
        {
            assert(b[j as int] == right@[j as int]@);
            let exclusive: bool = match (left[i].access, right[j].access) {
                (PlatformIoAccess::Shared, PlatformIoAccess::Shared) => false,
                _ => true,
            };
            if left[i].key.same(&right[j].key) && exclusive {
                assert(a[i as int].key == b[j as int].key);
                return true;
            }
            j = j + 1;
        }
        i = i + 1;
    }
    false
}

/// How a resource is in use.
#[derive(Debug, Clone, Copy, PartialEq, Eq, Structural)]
struct PlatformIoResourceState {
    shared: usize,
    exclusive: bool,
}

/// Mathematical form of how a resource is in use.
pub struct Held {
    /// How many share it.
    pub shared: nat,
    /// Whether one has it alone.
    pub exclusive: bool,
}

/// How a resource is in use.
pub open spec fn held_at(held: Map<ResourceKey, Held>, key: ResourceKey) -> Held {
    if held.dom().contains(key) {
        held[key]
    } else {
        Held { shared: 0, exclusive: false }
    }
}

/// Whether a use of a resource may begin.
pub open spec fn allows(held: Map<ResourceKey, Held>, claim: Claim) -> bool {
    let now = held_at(held, claim.key);
    &&& !now.exclusive
    &&& claim.access == PlatformIoAccess::Exclusive ==> now.shared == 0
}

/// Whether an operation may begin.
pub open spec fn may_begin(held: Map<ResourceKey, Held>, claims: Seq<Claim>) -> bool {
    forall|i: int| 0 <= i < claims.len() ==> allows(held, #[trigger] claims[i])
}

/// How a resource is in use after an operation began.
pub open spec fn held_after(now: Held, claims: Seq<Claim>, key: ResourceKey) -> Held {
    if !is_claimed(claims, key) {
        now
    } else if is_exclusive(claims, key) {
        Held { shared: now.shared, exclusive: true }
    } else {
        Held { shared: now.shared + 1, exclusive: now.exclusive }
    }
}

/// How resources are in use after an operation began.
pub open spec fn granted(held: Map<ResourceKey, Held>, claims: Seq<Claim>) -> Map<
    ResourceKey,
    Held,
> {
    Map::new(
        |key: ResourceKey| held.dom().contains(key) || is_claimed(claims, key),
        |key: ResourceKey| held_after(held_at(held, key), claims, key),
    )
}

/// How a resource is in use after an operation ended.
pub open spec fn left_after(now: Held, claims: Seq<Claim>, key: ResourceKey) -> Held {
    if !is_claimed(claims, key) {
        now
    } else if is_exclusive(claims, key) {
        Held { shared: now.shared, exclusive: false }
    } else {
        Held {
            shared: if now.shared == 0 {
                0
            } else {
                (now.shared - 1) as nat
            },
            exclusive: now.exclusive,
        }
    }
}

/// Whether nothing uses a resource.
pub open spec fn is_free(now: Held) -> bool {
    now.shared == 0 && !now.exclusive
}

/// How resources are in use after an operation ended.
pub open spec fn released(held: Map<ResourceKey, Held>, claims: Seq<Claim>) -> Map<
    ResourceKey,
    Held,
> {
    Map::new(
        |key: ResourceKey|
            held.dom().contains(key) && !is_free(left_after(held[key], claims, key)),
        |key: ResourceKey| left_after(held[key], claims, key),
    )
}

/// Whether a table is sound: what it lists is in use, and what one has alone no other has.
pub open spec fn held_sound(held: Map<ResourceKey, Held>) -> bool {
    forall|key: ResourceKey| #[trigger]
        held.dom().contains(key) ==> !is_free(held[key]) && (held[key].exclusive ==> held[key].shared
            == 0)
}

/// Whether claims are among those in use.
pub open spec fn are_held(held: Map<ResourceKey, Held>, claims: Seq<Claim>) -> bool {
    forall|i: int|
        0 <= i < claims.len() ==> {
            let now = held_at(held, (#[trigger] claims[i]).key);
            match claims[i].access {
                PlatformIoAccess::Shared => now.shared > 0,
                PlatformIoAccess::Exclusive => now.exclusive,
            }
        }
}

/// An operation that ended leaves the resources as they were before it began.
pub proof fn ending_undoes_beginning(held: Map<ResourceKey, Held>, claims: Seq<Claim>)
    requires
        held_sound(held),
        may_begin(held, claims),
    ensures
        released(granted(held, claims), claims) == held,
{
    let middle = granted(held, claims);
    let after = released(middle, claims);
    assert forall|key: ResourceKey| #[trigger] after.dom().contains(key) == held.dom().contains(
        key,
    ) by {
        if is_claimed(claims, key) {
            claimed_is_allowed(held, claims, key);
        }
    }
    assert forall|key: ResourceKey| #[trigger] after.dom().contains(key) implies after[key]
        == held[key] by {
        if is_claimed(claims, key) {
            claimed_is_allowed(held, claims, key);
        }
    }
    assert(after =~= held);
}

proof fn claimed_is_allowed(held: Map<ResourceKey, Held>, claims: Seq<Claim>, key: ResourceKey)
    requires
        may_begin(held, claims),
        is_claimed(claims, key),
    ensures
        !held_at(held, key).exclusive,
        is_exclusive(claims, key) ==> held_at(held, key).shared == 0,
{
    let i = choose|i: int| 0 <= i < claims.len() && (#[trigger] claims[i]).key == key;
    assert(allows(held, claims[i]));
    if is_exclusive(claims, key) {
        let j = choose|j: int|
            0 <= j < claims.len() && (#[trigger] claims[j]).key == key && claims[j].access
                == PlatformIoAccess::Exclusive;
        assert(allows(held, claims[j]));
    }
}

/// An operation that may begin beside another does not conflict with it.
pub proof fn side_by_side_do_not_conflict(
    held: Map<ResourceKey, Held>,
    first: Seq<Claim>,
    second: Seq<Claim>,
)
    requires
        may_begin(granted(held, first), second),
    ensures
        !conflict(first, second),
{
    if conflict(first, second) {
        let (i, j) = choose|i: int, j: int|
            {
                &&& 0 <= i < first.len()
                &&& 0 <= j < second.len()
                &&& (#[trigger] first[i]).key == (#[trigger] second[j]).key
                &&& first[i].access == PlatformIoAccess::Exclusive || second[j].access
                    == PlatformIoAccess::Exclusive
            };
        let key = first[i].key;
        assert(is_claimed(first, key));
        assert(allows(granted(held, first), second[j]));
        if first[i].access == PlatformIoAccess::Exclusive {
            assert(is_exclusive(first, key));
        }
    }
}

/// Beginning an operation that may begin keeps the table sound.
pub proof fn beginning_keeps_sound(held: Map<ResourceKey, Held>, claims: Seq<Claim>)
    requires
        held_sound(held),
        may_begin(held, claims),
        claimed_once(claims),
    ensures
        held_sound(granted(held, claims)),
        are_held(granted(held, claims), claims),
{
    let after = granted(held, claims);
    assert forall|key: ResourceKey| #[trigger] after.dom().contains(key) implies !is_free(
        after[key],
    ) && (after[key].exclusive ==> after[key].shared == 0) by {
        if is_claimed(claims, key) {
            claimed_is_allowed(held, claims, key);
        }
    }
    assert forall|i: int| 0 <= i < claims.len() implies {
        let now = held_at(after, (#[trigger] claims[i]).key);
        match claims[i].access {
            PlatformIoAccess::Shared => now.shared > 0,
            PlatformIoAccess::Exclusive => now.exclusive,
        }
    } by {
        let key = claims[i].key;
        assert(is_claimed(claims, key));
        if claims[i].access == PlatformIoAccess::Exclusive {
            assert(is_exclusive(claims, key));
        } else if is_exclusive(claims, key) {
            let j = choose|j: int|
                0 <= j < claims.len() && (#[trigger] claims[j]).key == key && claims[j].access
                    == PlatformIoAccess::Exclusive;
            if i < j {
                assert(claims[i].key != claims[j].key);
            } else {
                assert(claims[j].key != claims[i].key);
            }
        }
    }
}

/// The resources that running operations use.
#[derive(Debug)]
pub struct PlatformIoResourceTable {
    entries: Vec<(PlatformIoResourceKey, PlatformIoResourceState)>,
}

impl PlatformIoResourceTable {
    closed spec fn pairs(&self) -> Seq<(ResourceKey, Held)> {
        Seq::new(
            self.entries@.len(),
            |i: int|
                (
                    self.entries@[i].0@,
                    Held {
                        shared: self.entries@[i].1.shared as nat,
                        exclusive: self.entries@[i].1.exclusive,
                    },
                ),
        )
    }

    /// How resources are in use.
    pub closed spec fn held(&self) -> Map<ResourceKey, Held> {
        ordered::map_of(self.pairs())
    }

    /// Whether each resource is listed once, and the table is sound.
    pub closed spec fn wf(&self) -> bool {
        ordered::distinct_keys(self.pairs()) && held_sound(self.held())
    }

    /// A sound table is sound.
    pub proof fn is_sound(&self)
        requires
            self.wf(),
        ensures
            held_sound(self.held()),
    {
    }

    /// The table of a scheduler with nothing to do.
    pub fn new() -> (table: PlatformIoResourceTable)
        ensures
            table.wf(),
            table.held() == Map::<ResourceKey, Held>::empty(),
    {
        let table = PlatformIoResourceTable { entries: Vec::new() };
        assert(table.held() =~= Map::<ResourceKey, Held>::empty());
        table
    }

    fn find(&self, key: &PlatformIoResourceKey) -> (found: Option<usize>)
        requires
            ordered::distinct_keys(self.pairs()),
        ensures
            match found {
                Some(at) => {
                    &&& at < self.pairs().len()
                    &&& self.pairs()[at as int].0 == key@
                    &&& self.held().dom().contains(key@)
                    &&& self.held()[key@] == self.pairs()[at as int].1
                },
                None => !self.held().dom().contains(key@),
            },
    {
        let ghost pairs = self.pairs();
        let mut i: usize = 0;
        while i < self.entries.len()
            invariant
                i <= self.entries@.len(),
                pairs == self.pairs(),
                ordered::distinct_keys(pairs),
                forall|j: int| 0 <= j < i ==> (#[trigger] pairs[j]).0 != key@,
            decreases self.entries@.len() - i,
        {
            assert(pairs[i as int].0 == self.entries@[i as int].0@);
            if self.entries[i].0.same(key) {
                proof {
                    ordered::pair_is_in_map(pairs, i as int);
                }
                return Some(i);
            }
            i = i + 1;
        }
        None
    }

    /// Tells whether an operation may begin.
    pub fn can_acquire(&self, requests: &Vec<PlatformIoResourceRequest>) -> (can: bool)
        requires
            self.wf(),
        ensures
            can == may_begin(self.held(), claims(requests@)),
    {
        let ghost all = claims(requests@);
        let mut i: usize = 0;
        while i < requests.len()
            invariant
                i <= requests@.len(),
                self.wf(),
                all == claims(requests@),
                forall|j: int| 0 <= j < i ==> allows(self.held(), #[trigger] all[j]),
            decreases requests@.len() - i,
        {
            assert(all[i as int] == requests@[i as int]@);
            let state: PlatformIoResourceState = match self.find(&requests[i].key) {
                Some(at) => self.entries[at].1,
                None => PlatformIoResourceState { shared: 0, exclusive: false },
            };
            let allowed: bool = match requests[i].access {
                PlatformIoAccess::Shared => !state.exclusive,
                PlatformIoAccess::Exclusive => !state.exclusive && state.shared == 0,
            };
            if !allowed {
                assert(!allows(self.held(), all[i as int]));
                return false;
            }
            i = i + 1;
        }
        true
    }

    /// Sets how a resource is in use.
    fn put(&mut self, key: &PlatformIoResourceKey, state: PlatformIoResourceState)
        requires
            ordered::distinct_keys(old(self).pairs()),
        ensures
            ordered::distinct_keys(final(self).pairs()),
            final(self).held() == old(self).held().insert(
                key@,
                Held { shared: state.shared as nat, exclusive: state.exclusive },
            ),
    {
        let ghost before = self.pairs();
        let ghost value = Held { shared: state.shared as nat, exclusive: state.exclusive };
        match self.find(key) {
            Some(at) => {
                let kept: PlatformIoResourceKey = self.entries[at].0.clone();
                self.entries.set(at, (kept, state));
                proof {
                    assert(self.pairs() =~= before.update(at as int, (key@, value)));
                    ordered::map_of_update(before, at as int, value);
                }
            },
            None => {
                self.entries.push((key.clone(), state));
                proof {
                    assert(self.pairs() =~= before.insert(before.len() as int, (key@, value)));
                    ordered::map_of_insert(before, before.len() as int, key@, value);
                }
            },
        }
    }

    /// Begins an operation that may begin.
    pub fn acquire(&mut self, requests: &Vec<PlatformIoResourceRequest>)
        requires
            old(self).wf(),
            claimed_once(claims(requests@)),
            may_begin(old(self).held(), claims(requests@)),
            forall|key: ResourceKey| #[trigger]
                old(self).held().dom().contains(key) ==> old(self).held()[key].shared < usize::MAX,
        ensures
            final(self).wf(),
            final(self).held() == granted(old(self).held(), claims(requests@)),
    {
        let ghost all = claims(requests@);
        let ghost before = self.held();
        let mut i: usize = 0;
        assert(granted(before, all.take(0)) =~= before);
        while i < requests.len()
            invariant
                i <= requests@.len(),
                all == claims(requests@),
                before == old(self).held(),
                claimed_once(all),
                forall|key: ResourceKey| #[trigger]
                    before.dom().contains(key) ==> before[key].shared < usize::MAX,
                ordered::distinct_keys(self.pairs()),
                self.held() == granted(before, all.take(i as int)),
            decreases requests@.len() - i,
        {
            let request: &PlatformIoResourceRequest = &requests[i];
            let ghost done = all.take(i as int);
            let ghost more = all.take(i + 1);
            let ghost key = request.key@;
            let ghost middle = self.held();
            proof {
                assert(more =~= done.push(request@));
                pushed_claims(done, request@);
                assert(!is_claimed(done, key)) by {
                    if is_claimed(done, key) {
                        let k = choose|k: int|
                            0 <= k < done.len() && (#[trigger] done[k]).key == key;
                        assert(all[k].key == all[i as int].key);
                    }
                }
                assert(!is_exclusive(done, key));
            }
            let now: PlatformIoResourceState = match self.find(&request.key) {
                Some(at) => self.entries[at].1,
                None => PlatformIoResourceState { shared: 0, exclusive: false },
            };
            assert((Held { shared: now.shared as nat, exclusive: now.exclusive }) == held_at(
                before,
                key,
            ));
            let next: PlatformIoResourceState = match request.access {
                PlatformIoAccess::Shared => PlatformIoResourceState {
                    shared: now.shared + 1,
                    exclusive: now.exclusive,
                },
                PlatformIoAccess::Exclusive => PlatformIoResourceState {
                    shared: now.shared,
                    exclusive: true,
                },
            };
            self.put(&request.key, next);
            proof {
                let after = granted(before, more);
                assert forall|other: ResourceKey| #[trigger] self.held().dom().contains(other)
                    == after.dom().contains(other) by {
                    assert(is_claimed(more, other) == (is_claimed(done, other) || other == key));
                }
                assert forall|other: ResourceKey| #[trigger]
                    self.held().dom().contains(other) implies self.held()[other]
                    == after[other] by {
                    assert(is_claimed(more, other) == (is_claimed(done, other) || other == key));
                    assert(is_exclusive(more, other) == (is_exclusive(done, other) || (other == key
                        && request@.access == PlatformIoAccess::Exclusive)));
                }
                assert(self.held() =~= after);
            }
            i = i + 1;
        }
        proof {
            assert(all.take(i as int) =~= all);
            beginning_keeps_sound(before, all);
        }
    }

    /// Takes a resource out of the table.
    fn take(&mut self, at: usize)
        requires
            ordered::distinct_keys(old(self).pairs()),
            at < old(self).pairs().len(),
        ensures
            ordered::distinct_keys(final(self).pairs()),
            final(self).held() == old(self).held().remove(old(self).pairs()[at as int].0),
    {
        let ghost before = self.pairs();
        let _ = self.entries.remove(at);
        proof {
            assert(self.pairs() =~= before.remove(at as int));
            ordered::map_of_remove(before, at as int);
        }
    }

    /// Ends an operation that runs.
    pub fn release(&mut self, requests: &Vec<PlatformIoResourceRequest>)
        requires
            old(self).wf(),
            claimed_once(claims(requests@)),
            are_held(old(self).held(), claims(requests@)),
        ensures
            final(self).wf(),
            final(self).held() == released(old(self).held(), claims(requests@)),
    {
        let ghost all = claims(requests@);
        let ghost before = self.held();
        let mut i: usize = 0;
        assert(released(before, all.take(0)) =~= before);
        while i < requests.len()
            invariant
                i <= requests@.len(),
                all == claims(requests@),
                before == old(self).held(),
                claimed_once(all),
                held_sound(before),
                are_held(before, all),
                ordered::distinct_keys(self.pairs()),
                self.held() == released(before, all.take(i as int)),
            decreases requests@.len() - i,
        {
            let request: &PlatformIoResourceRequest = &requests[i];
            let ghost done = all.take(i as int);
            let ghost more = all.take(i + 1);
            let ghost key = request.key@;
            proof {
                assert(all[i as int] == request@);
                assert(more =~= done.push(request@));
                pushed_claims(done, request@);
                assert(!is_claimed(done, key)) by {
                    if is_claimed(done, key) {
                        let k = choose|k: int|
                            0 <= k < done.len() && (#[trigger] done[k]).key == key;
                        assert(all[k].key == all[i as int].key);
                    }
                }
                assert(before.dom().contains(key));
                assert(self.held().dom().contains(key));
                assert(self.held()[key] == before[key]);
            }
            if let Some(at) = self.find(&request.key) {
                let now: PlatformIoResourceState = self.entries[at].1;
                let next: PlatformIoResourceState = match request.access {
                    PlatformIoAccess::Shared => PlatformIoResourceState {
                        shared: if now.shared == 0 {
                            0
                        } else {
                            now.shared - 1
                        },
                        exclusive: now.exclusive,
                    },
                    PlatformIoAccess::Exclusive => PlatformIoResourceState {
                        shared: now.shared,
                        exclusive: false,
                    },
                };
                if next.shared == 0 && !next.exclusive {
                    self.take(at);
                } else {
                    self.put(&request.key, next);
                }
            }
            proof {
                let after = released(before, more);
                assert forall|other: ResourceKey| #[trigger] self.held().dom().contains(other)
                    == after.dom().contains(other) by {
                    assert(is_claimed(more, other) == (is_claimed(done, other) || other == key));
                    assert(is_exclusive(more, other) == (is_exclusive(done, other) || (other == key
                        && request@.access == PlatformIoAccess::Exclusive)));
                }
                assert forall|other: ResourceKey| #[trigger]
                    self.held().dom().contains(other) implies self.held()[other]
                    == after[other] by {
                    assert(is_claimed(more, other) == (is_claimed(done, other) || other == key));
                    assert(is_exclusive(more, other) == (is_exclusive(done, other) || (other == key
                        && request@.access == PlatformIoAccess::Exclusive)));
                }
                assert(self.held() =~= after);
            }
            i = i + 1;
        }
        assert(all.take(i as int) =~= all);
    }
}

impl Default for PlatformIoResourceTable {
    fn default() -> (table: PlatformIoResourceTable)
        ensures
            table.wf(),
            table.held() == Map::<ResourceKey, Held>::empty(),
    {
        PlatformIoResourceTable::new()
    }
}

/// Whether operations conflict does not depend on which of them is asked. Operations that only
/// share what they use never conflict; an exclusive use conflicts with every other use of the same
/// resource, and uses of different resources never do.
pub proof fn exclusive_use_excludes_every_other(left: Claim, right: Claim, a: Seq<Claim>, b: Seq<Claim>)
    ensures
        conflict(a, b) == conflict(b, a),
        conflict(seq![left], seq![right]) == (left.key == right.key && !(left.access is Shared
            && right.access is Shared)),
        conflict(a, b) ==> exists|key: ResourceKey| #[trigger]
            is_claimed(a, key) && is_claimed(b, key) && (is_exclusive(a, key) || is_exclusive(
                b,
                key,
            )),
        forall|key: ResourceKey| #[trigger]
            is_exclusive(a, key) && is_claimed(b, key) ==> conflict(a, b),
{
    if conflict(a, b) {
        let (i, j) = choose|i: int, j: int|
            {
                &&& 0 <= i < a.len()
                &&& 0 <= j < b.len()
                &&& (#[trigger] a[i]).key == (#[trigger] b[j]).key
                &&& a[i].access == PlatformIoAccess::Exclusive || b[j].access
                    == PlatformIoAccess::Exclusive
            };
        assert(is_claimed(a, a[i].key));
        assert(is_claimed(b, a[i].key));
        assert(b[j].key == a[i].key);
        assert(conflict(b, a));
    }
    if conflict(b, a) {
        let (i, j) = choose|i: int, j: int|
            {
                &&& 0 <= i < b.len()
                &&& 0 <= j < a.len()
                &&& (#[trigger] b[i]).key == (#[trigger] a[j]).key
                &&& b[i].access == PlatformIoAccess::Exclusive || a[j].access
                    == PlatformIoAccess::Exclusive
            };
        assert(a[j].key == b[i].key);
    }
    assert(seq![left][0] == left);
    assert(seq![right][0] == right);
}

/// Beginning an operation changes what is held only for the resources that it claims, by one more
/// use of each.
pub proof fn beginning_counts_one_more_use(
    held: Map<ResourceKey, Held>,
    claims: Seq<Claim>,
    key: ResourceKey,
)
    ensures
        !is_claimed(claims, key) ==> held_at(granted(held, claims), key) == held_at(held, key),
        is_exclusive(claims, key) ==> held_at(granted(held, claims), key).exclusive,
        is_claimed(claims, key) && !is_exclusive(claims, key) ==> held_at(
            granted(held, claims),
            key,
        ).shared == held_at(held, key).shared + 1,
{
    if is_exclusive(claims, key) {
        let i = choose|i: int|
            0 <= i < claims.len() && (#[trigger] claims[i]).key == key && claims[i].access
                == PlatformIoAccess::Exclusive;
        assert(is_claimed(claims, key));
    }
}

/// An operation may begin exactly where nothing that it claims is held exclusively, and nothing
/// that it claims exclusively is held at all.
pub proof fn only_free_resources_are_granted(held: Map<ResourceKey, Held>, claims: Seq<Claim>)
    ensures
        may_begin(held, claims) <==> (forall|key: ResourceKey| #[trigger]
            is_claimed(claims, key) ==> !held_at(held, key).exclusive) && (forall|
            key: ResourceKey,
        | #[trigger]
            is_exclusive(claims, key) ==> held_at(held, key).shared == 0),
{
    if may_begin(held, claims) {
        assert forall|key: ResourceKey| #[trigger] is_claimed(claims, key) implies !held_at(
            held,
            key,
        ).exclusive by {
            let i = choose|i: int| 0 <= i < claims.len() && (#[trigger] claims[i]).key == key;
            assert(allows(held, claims[i]));
        }
        assert forall|key: ResourceKey| #[trigger] is_exclusive(claims, key) implies held_at(
            held,
            key,
        ).shared == 0 by {
            let i = choose|i: int|
                0 <= i < claims.len() && (#[trigger] claims[i]).key == key && claims[i].access
                    == PlatformIoAccess::Exclusive;
            assert(allows(held, claims[i]));
        }
    }
    if (forall|key: ResourceKey| #[trigger]
        is_claimed(claims, key) ==> !held_at(held, key).exclusive) && (forall|key: ResourceKey|
     #[trigger]
        is_exclusive(claims, key) ==> held_at(held, key).shared == 0) {
        assert forall|i: int| 0 <= i < claims.len() implies allows(held, #[trigger] claims[i]) by {
            assert(is_claimed(claims, claims[i].key));
            if claims[i].access == PlatformIoAccess::Exclusive {
                assert(is_exclusive(claims, claims[i].key));
            }
        }
    }
}

} // verus!
