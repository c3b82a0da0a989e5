//! What the operations that run side by side use together.
use vstd::prelude::*;

use crate::io::resources;
use crate::io::resources::{Claim, Held, PlatformIoAccess, ResourceKey};

verus! {

/// How many of the operations share a resource.
pub open spec fn sharing(running: Seq<Seq<Claim>>, key: ResourceKey) -> nat
    decreases running.len(),
{
    if running.len() == 0 {
        0
    } else {
        sharing(running.drop_last(), key) + (if shares(running.last(), key) {
            1nat
        } else {
            0nat
        })
    }
}

/// Whether an operation uses a resource beside others.
pub open spec fn shares(claims: Seq<Claim>, key: ResourceKey) -> bool {
    resources::is_claimed(claims, key) && !resources::is_exclusive(claims, key)
}

/// Whether one of the operations has a resource alone.
pub open spec fn has_alone(running: Seq<Seq<Claim>>, key: ResourceKey) -> bool {
    exists|i: int| 0 <= i < running.len() && resources::is_exclusive(#[trigger] running[i], key)
}

/// Whether a table lists what the operations use.
pub open spec fn in_use(held: Map<ResourceKey, Held>, running: Seq<Seq<Claim>>) -> bool {
    forall|key: ResourceKey| #[trigger]
        resources::held_at(held, key) == (Held {
            shared: sharing(running, key),
            exclusive: has_alone(running, key),
        })
}

/// Whether no two operations conflict.
pub open spec fn apart(running: Seq<Seq<Claim>>) -> bool {
    forall|i: int, j: int|
        0 <= i < j < running.len() ==> !resources::conflict(
            #[trigger] running[i],
            #[trigger] running[j],
        )
}

/// Whether an operation conflicts with none of those that run.
pub open spec fn fits(running: Seq<Seq<Claim>>, claims: Seq<Claim>) -> bool {
    forall|i: int| 0 <= i < running.len() ==> !resources::conflict(#[trigger] running[i], claims)
}

/// Whether each operation claims each resource once.
pub open spec fn each_once(running: Seq<Seq<Claim>>) -> bool {
    forall|i: int| 0 <= i < running.len() ==> resources::claimed_once(#[trigger] running[i])
}

/// No more operations share a resource than there are.
pub(crate) proof fn sharing_is_bounded(running: Seq<Seq<Claim>>, key: ResourceKey)
    ensures
        sharing(running, key) <= running.len(),
    decreases running.len(),
{
    if running.len() > 0 {
        sharing_is_bounded(running.drop_last(), key);
    }
}

/// A resource that an operation shares is shared.
pub(crate) proof fn sharing_is_positive(running: Seq<Seq<Claim>>, key: ResourceKey, i: int)
    requires
        0 <= i < running.len(),
        shares(running[i], key),
    ensures
        sharing(running, key) > 0,
    decreases running.len(),
{
    if i < running.len() - 1 {
        sharing_is_positive(running.drop_last(), key, i);
    }
}

/// A resource that is shared is shared by some operation.
pub(crate) proof fn sharing_has_one(running: Seq<Seq<Claim>>, key: ResourceKey) -> (i: int)
    requires
        sharing(running, key) > 0,
    ensures
        0 <= i < running.len(),
        shares(running[i], key),
    decreases running.len(),
{
    if shares(running.last(), key) {
        running.len() - 1
    } else {
        sharing_has_one(running.drop_last(), key)
    }
}

proof fn sharing_without(running: Seq<Seq<Claim>>, key: ResourceKey, i: int)
    requires
        0 <= i < running.len(),
    ensures
        sharing(running, key) == sharing(running.remove(i), key) + (if shares(running[i], key) {
            1nat
        } else {
            0nat
        }),
    decreases running.len(),
{
    let rest = running.remove(i);
    if i == running.len() - 1 {
        assert(rest =~= running.drop_last());
    } else {
        sharing_without(running.drop_last(), key, i);
        assert(rest.drop_last() =~= running.drop_last().remove(i));
        assert(rest.last() == running.last());
    }
}

/// The table lets an operation begin exactly where it conflicts with none of those that run.
pub proof fn fits_where_table_allows(
    held: Map<ResourceKey, Held>,
    running: Seq<Seq<Claim>>,
    claims: Seq<Claim>,
)
    requires
        in_use(held, running),
    ensures
        resources::may_begin(held, claims) == fits(running, claims),
{
    if resources::may_begin(held, claims) {
        assert forall|i: int| 0 <= i < running.len() implies !resources::conflict(
            #[trigger] running[i],
            claims,
        ) by {
            if resources::conflict(running[i], claims) {
                let first = running[i];
                let (a, b) = choose|a: int, b: int|
                    {
                        &&& 0 <= a < first.len()
                        &&& 0 <= b < claims.len()
                        &&& (#[trigger] first[a]).key == (#[trigger] claims[b]).key
                        &&& first[a].access == PlatformIoAccess::Exclusive || claims[b].access
                            == PlatformIoAccess::Exclusive
                    };
                let key = claims[b].key;
                assert(resources::allows(held, claims[b]));
                assert(resources::is_claimed(first, key));
                assert(!resources::held_at(held, key).exclusive);
                if resources::is_exclusive(first, key) {
                    assert(has_alone(running, key));
                } else {
                    sharing_is_positive(running, key, i);
                }
            }
        }
    }
    if fits(running, claims) {
        assert forall|b: int| 0 <= b < claims.len() implies resources::allows(
            held,
            #[trigger] claims[b],
        ) by {
            let key = claims[b].key;
            let now = resources::held_at(held, key);
            if now.exclusive {
                let i = choose|i: int|
                    0 <= i < running.len() && resources::is_exclusive(#[trigger] running[i], key);
                let first = running[i];
                let a = choose|a: int|
                    0 <= a < first.len() && (#[trigger] first[a]).key == key && first[a].access
                        == PlatformIoAccess::Exclusive;
                assert(first[a].key == claims[b].key);
                assert(resources::conflict(running[i], claims));
            }
            if claims[b].access == PlatformIoAccess::Exclusive && now.shared > 0 {
                let i = sharing_has_one(running, key);
                let first = running[i];
                let a = choose|a: int| 0 <= a < first.len() && (#[trigger] first[a]).key == key;
                assert(first[a].key == claims[b].key);
                assert(resources::conflict(running[i], claims));
            }
        }
    }
}

/// Beginning an operation adds what it uses to the table.
pub(crate) proof fn beginning_is_listed(
    held: Map<ResourceKey, Held>,
    running: Seq<Seq<Claim>>,
    claims: Seq<Claim>,
)
    requires
        in_use(held, running),
        apart(running),
        each_once(running),
        fits(running, claims),
        resources::claimed_once(claims),
    ensures
        in_use(resources::granted(held, claims), running.push(claims)),
        apart(running.push(claims)),
        each_once(running.push(claims)),
{
    let after = resources::granted(held, claims);
    let more = running.push(claims);
    assert(more.drop_last() =~= running);
    assert forall|key: ResourceKey| #[trigger]
        resources::held_at(after, key) == (Held {
            shared: sharing(more, key),
            exclusive: has_alone(more, key),
        }) by {
        let now = resources::held_at(held, key);
        assert(now == (Held { shared: sharing(running, key), exclusive: has_alone(running, key) }));
        assert(has_alone(more, key) == (has_alone(running, key) || resources::is_exclusive(
            claims,
            key,
        ))) by {
            if has_alone(running, key) {
                let i = choose|i: int|
                    0 <= i < running.len() && resources::is_exclusive(#[trigger] running[i], key);
                assert(more[i] == running[i]);
            }
            if resources::is_exclusive(claims, key) {
                assert(more[running.len() as int] == claims);
            }
            if has_alone(more, key) {
                let i = choose|i: int|
                    0 <= i < more.len() && resources::is_exclusive(#[trigger] more[i], key);
                if i < running.len() {
                    assert(more[i] == running[i]);
                }
            }
        }
        if !resources::is_claimed(claims, key) {
            assert(!resources::is_exclusive(claims, key));
        }
    }
}

/// Ending an operation takes what it used from the table.
pub(crate) proof fn ending_is_listed(
    held: Map<ResourceKey, Held>,
    running: Seq<Seq<Claim>>,
    at: int,
)
    requires
        0 <= at < running.len(),
        in_use(held, running),
        apart(running),
        each_once(running),
    ensures
        resources::are_held(held, running[at]),
        in_use(resources::released(held, running[at]), running.remove(at)),
        apart(running.remove(at)),
        each_once(running.remove(at)),
{
    let claims = running[at];
    let after = resources::released(held, claims);
    let rest = running.remove(at);
    assert(resources::claimed_once(claims));
    assert forall|i: int| 0 <= i < claims.len() implies {
        let now = resources::held_at(held, (#[trigger] claims[i]).key);
        match claims[i].access {
            PlatformIoAccess::Shared => now.shared > 0,
            PlatformIoAccess::Exclusive => now.exclusive,
        }
    } by {
        let key = claims[i].key;
        assert(resources::is_claimed(claims, key));
        assert(resources::held_at(held, key).exclusive == has_alone(running, key));
        if claims[i].access == PlatformIoAccess::Exclusive {
            assert(resources::is_exclusive(running[at], key));
        } else {
            if resources::is_exclusive(claims, key) {
                let j = choose|j: int|
                    0 <= j < claims.len() && (#[trigger] claims[j]).key == key && claims[j].access
                        == PlatformIoAccess::Exclusive;
                if i < j {
                    assert(claims[i].key != claims[j].key);
                } else {
                    assert(claims[j].key != claims[i].key);
                }
            }
            sharing_is_positive(running, key, at);
        }
    }
    assert forall|i: int, j: int| 0 <= i < j < rest.len() implies !resources::conflict(
        #[trigger] rest[i],
        #[trigger] rest[j],
    ) by {
        let a = if i < at {
            i
        } else {
            i + 1
        };
        let b = if j < at {
            j
        } else {
            j + 1
        };
        assert(rest[i] == running[a] && rest[j] == running[b]);
    }
    assert forall|i: int| 0 <= i < rest.len() implies resources::claimed_once(
        #[trigger] rest[i],
    ) by {
        let a = if i < at {
            i
        } else {
            i + 1
        };
        assert(rest[i] == running[a]);
    }
    assert forall|key: ResourceKey| #[trigger]
        resources::held_at(after, key) == (Held {
            shared: sharing(rest, key),
            exclusive: has_alone(rest, key),
        }) by {
        let now = resources::held_at(held, key);
        assert(now == (Held { shared: sharing(running, key), exclusive: has_alone(running, key) }));
        sharing_without(running, key, at);
        assert(has_alone(running, key) == (has_alone(rest, key) || resources::is_exclusive(
            claims,
            key,
        ))) by {
            if has_alone(running, key) {
                let i = choose|i: int|
                    0 <= i < running.len() && resources::is_exclusive(#[trigger] running[i], key);
                if i < at {
                    assert(rest[i] == running[i]);
                } else if i > at {
                    assert(rest[i - 1] == running[i]);
                }
            }
            if has_alone(rest, key) {
                let i = choose|i: int|
                    0 <= i < rest.len() && resources::is_exclusive(#[trigger] rest[i], key);
                let a = if i < at {
                    i
                } else {
                    i + 1
                };
                assert(rest[i] == running[a]);
            }
            if resources::is_exclusive(claims, key) {
                assert(running[at] == claims);
            }
        }
        if resources::is_exclusive(claims, key) {
            alone_is_alone(running, at, key);
            if has_alone(rest, key) {
                let i = choose|i: int|
                    0 <= i < rest.len() && resources::is_exclusive(#[trigger] rest[i], key);
                let a = if i < at {
                    i
                } else {
                    i + 1
                };
                assert(rest[i] == running[a]);
            }
        }
        if !resources::is_claimed(claims, key) {
            assert(!resources::is_exclusive(claims, key));
        }
    }
}

proof fn alone_is_alone(running: Seq<Seq<Claim>>, at: int, key: ResourceKey)
    requires
        apart(running),
        0 <= at < running.len(),
        resources::is_exclusive(running[at], key),
    ensures
        forall|i: int|
            0 <= i < running.len() && i != at ==> !resources::is_claimed(#[trigger] running[i], key)
                && !resources::is_exclusive(running[i], key),
{
    let first = running[at];
    let a = choose|a: int|
        0 <= a < first.len() && (#[trigger] first[a]).key == key && first[a].access
            == PlatformIoAccess::Exclusive;
    assert forall|i: int| 0 <= i < running.len() && i != at implies !resources::is_claimed(
        #[trigger] running[i],
        key,
    ) && !resources::is_exclusive(running[i], key) by {
        let second = running[i];
        if resources::is_claimed(second, key) {
            let b = choose|b: int| 0 <= b < second.len() && (#[trigger] second[b]).key == key;
            assert(first[a].key == second[b].key);
            assert(resources::conflict(first, second));
            assert(second[b].key == first[a].key);
            assert(resources::conflict(second, first));
            if i < at {
                assert(!resources::conflict(running[i], running[at]));
            } else {
                assert(!resources::conflict(running[at], running[i]));
            }
        }
    }
}

/// Nothing is in use where nothing runs.
pub(crate) proof fn nothing_runs()
    ensures
        in_use(Map::<ResourceKey, Held>::empty(), Seq::<Seq<Claim>>::empty()),
        apart(Seq::<Seq<Claim>>::empty()),
        each_once(Seq::<Seq<Claim>>::empty()),
{
}

} // verus!
