//! Lexicographic order on byte strings.
use vstd::prelude::*;

verus! {

/// How one value stands to another in a total order.
#[derive(Debug, Clone, Copy, PartialEq, Eq, Structural)]
pub enum KeyOrder {
    /// The left value comes first.
    Less,
    /// The two values are the same.
    Equal,
    /// The right value comes first.
    Greater,
}

/// Whether `a` comes before `b` when both are compared from position `i` on.
pub open spec fn bytes_lt_from(a: Seq<u8>, b: Seq<u8>, i: int) -> bool
    decreases b.len() - i,
{
    if i >= b.len() {
        false
    } else if i >= a.len() {
        true
    } else {
        a[i] < b[i] || (a[i] == b[i] && bytes_lt_from(a, b, i + 1))
    }
}

/// Whether `a` comes strictly before `b` in lexicographic order.
pub open spec fn bytes_lt(a: Seq<u8>, b: Seq<u8>) -> bool {
    bytes_lt_from(a, b, 0)
}

/// Whether `a` comes before `b` in lexicographic order or equals it.
pub open spec fn bytes_le(a: Seq<u8>, b: Seq<u8>) -> bool {
    a == b || bytes_lt(a, b)
}

/// Whether `key` starts with `prefix`.
pub open spec fn has_prefix(key: Seq<u8>, prefix: Seq<u8>) -> bool {
    prefix.len() <= key.len() && key.subrange(0, prefix.len() as int) == prefix
}

proof fn lt_from_irreflexive(a: Seq<u8>, i: int)
    requires
        0 <= i,
    ensures
        !bytes_lt_from(a, a, i),
    decreases a.len() - i,
{
    if i < a.len() {
        lt_from_irreflexive(a, i + 1);
    }
}

proof fn lt_from_transitive(a: Seq<u8>, b: Seq<u8>, c: Seq<u8>, i: int)
    requires
        0 <= i,
        bytes_lt_from(a, b, i),
        bytes_lt_from(b, c, i),
    ensures
        bytes_lt_from(a, c, i),
    decreases c.len() - i,
{
    if i < a.len() && i < b.len() && i < c.len() && a[i] == b[i] && b[i] == c[i] {
        lt_from_transitive(a, b, c, i + 1);
    }
}

proof fn lt_from_total(a: Seq<u8>, b: Seq<u8>, i: int)
    requires
        0 <= i <= a.len(),
        i <= b.len(),
        forall|j: int| 0 <= j < i ==> a[j] == b[j],
    ensures
        bytes_lt_from(a, b, i) || bytes_lt_from(b, a, i) || a == b,
    decreases b.len() - i,
{
    if i < a.len() && i < b.len() {
        if a[i] == b[i] {
            lt_from_total(a, b, i + 1);
        }
    } else if i == a.len() && i == b.len() {
        assert(a =~= b);
    }
}

/// No byte string comes before itself.
pub proof fn bytes_lt_irreflexive(a: Seq<u8>)
    ensures
        !bytes_lt(a, a),
{
    lt_from_irreflexive(a, 0);
}

/// The order on byte strings is transitive.
pub proof fn bytes_lt_transitive(a: Seq<u8>, b: Seq<u8>, c: Seq<u8>)
    requires
        bytes_lt(a, b),
        bytes_lt(b, c),
    ensures
        bytes_lt(a, c),
{
    lt_from_transitive(a, b, c, 0);
}

/// Of two byte strings at most one comes before the other.
pub proof fn bytes_lt_asymmetric(a: Seq<u8>, b: Seq<u8>)
    requires
        bytes_lt(a, b),
    ensures
        !bytes_lt(b, a),
        a != b,
{
    bytes_lt_irreflexive(a);
    if bytes_lt(b, a) {
        bytes_lt_transitive(a, b, a);
    }
}

/// Two different byte strings are ordered one way or the other.
pub proof fn bytes_lt_total(a: Seq<u8>, b: Seq<u8>)
    ensures
        bytes_lt(a, b) || bytes_lt(b, a) || a == b,
{
    lt_from_total(a, b, 0);
}

/// The facts that make [`bytes_lt`] a strict total order, for every triple.
pub proof fn bytes_order_facts()
    ensures
        forall|a: Seq<u8>| !#[trigger] bytes_lt(a, a),
        forall|a: Seq<u8>, b: Seq<u8>| #[trigger] bytes_lt(a, b) ==> !bytes_lt(b, a),
        forall|a: Seq<u8>, b: Seq<u8>| #[trigger] bytes_lt(a, b) || bytes_lt(b, a) || a == b,
        forall|a: Seq<u8>, b: Seq<u8>, c: Seq<u8>| #[trigger]
            bytes_lt(a, b) && #[trigger] bytes_lt(b, c) ==> bytes_lt(a, c),
{
    assert forall|a: Seq<u8>| !#[trigger] bytes_lt(a, a) by {
        bytes_lt_irreflexive(a);
    }
    assert forall|a: Seq<u8>, b: Seq<u8>| #[trigger] bytes_lt(a, b) implies !bytes_lt(b, a) by {
        bytes_lt_asymmetric(a, b);
    }
    assert forall|a: Seq<u8>, b: Seq<u8>| #[trigger]
        bytes_lt(a, b) || bytes_lt(b, a) || a == b by {
        bytes_lt_total(a, b);
    }
    assert forall|a: Seq<u8>, b: Seq<u8>, c: Seq<u8>| #[trigger]
        bytes_lt(a, b) && #[trigger] bytes_lt(b, c) implies bytes_lt(a, c) by {
        bytes_lt_transitive(a, b, c);
    }
}

/// Tells how two byte strings are ordered.
pub fn order_bytes(a: &[u8], b: &[u8]) -> (order: KeyOrder)
    ensures
        order == KeyOrder::Less <==> bytes_lt(a@, b@),
        order == KeyOrder::Equal <==> a@ == b@,
        order == KeyOrder::Greater <==> bytes_lt(b@, a@),
{
    proof {
        bytes_order_facts();
    }
    let mut i: usize = 0;
    while i < a.len() && i < b.len()
        invariant
            i <= a.len(),
            i <= b.len(),
            forall|j: int| 0 <= j < i ==> a@[j] == b@[j],
            bytes_lt(a@, b@) == bytes_lt_from(a@, b@, i as int),
            bytes_lt(b@, a@) == bytes_lt_from(b@, a@, i as int),
        decreases a.len() - i,
    {
        if a[i] < b[i] {
            proof {
                bytes_lt_asymmetric(a@, b@);
            }
            return KeyOrder::Less;
        }
        if b[i] < a[i] {
            proof {
                bytes_lt_asymmetric(b@, a@);
            }
            return KeyOrder::Greater;
        }
        i += 1;
    }
    if i < b.len() {
        proof {
            bytes_lt_asymmetric(a@, b@);
        }
        KeyOrder::Less
    } else if i < a.len() {
        proof {
            bytes_lt_asymmetric(b@, a@);
        }
        KeyOrder::Greater
    } else {
        proof {
            assert(a@ =~= b@);
        }
        KeyOrder::Equal
    }
}

/// Tells whether `a` comes strictly before `b`.
pub fn bytes_before(a: &[u8], b: &[u8]) -> (before: bool)
    ensures
        before == bytes_lt(a@, b@),
{
    match order_bytes(a, b) {
        KeyOrder::Less => true,
        _ => false,
    }
}

/// Tells whether two byte strings hold the same bytes.
pub fn bytes_equal(a: &[u8], b: &[u8]) -> (equal: bool)
    ensures
        equal == (a@ == b@),
{
    match order_bytes(a, b) {
        KeyOrder::Equal => true,
        _ => false,
    }
}

/// Tells whether `key` starts with `prefix`.
pub fn starts_with(key: &[u8], prefix: &[u8]) -> (starts: bool)
    ensures
        starts == has_prefix(key@, prefix@),
{
    if prefix.len() > key.len() {
        return false;
    }
    let mut i: usize = 0;
    while i < prefix.len()
        invariant
            prefix.len() <= key.len(),
            i <= prefix.len(),
            forall|j: int| 0 <= j < i ==> key@[j] == prefix@[j],
        decreases prefix.len() - i,
    {
        if key[i] != prefix[i] {
            proof {
                assert(key@.subrange(0, prefix.len() as int)[i as int] != prefix@[i as int]);
            }
            return false;
        }
        i += 1;
    }
    proof {
        assert(key@.subrange(0, prefix.len() as int) =~= prefix@);
    }
    true
}

/// A key that starts with `prefix` does not come before it.
pub proof fn prefixed_key_not_before_prefix(key: Seq<u8>, prefix: Seq<u8>)
    requires
        has_prefix(key, prefix),
    ensures
        !bytes_lt(key, prefix),
{
    assert forall|j: int| 0 <= j < prefix.len() implies key[j] == prefix[j] by {
        assert(key.subrange(0, prefix.len() as int)[j] == prefix[j]);
    }
    prefixed_from(key, prefix, 0);
}

/// Where two byte strings first differ decides their order.
pub proof fn first_difference_decides(a: Seq<u8>, b: Seq<u8>, i: int)
    requires
        0 <= i <= a.len(),
        i < b.len(),
        forall|j: int| 0 <= j < i ==> a[j] == b[j],
        i == a.len() || a[i] < b[i],
    ensures
        bytes_lt(a, b),
{
    decides_from(a, b, i, 0);
}

proof fn decides_from(a: Seq<u8>, b: Seq<u8>, i: int, at: int)
    requires
        0 <= at <= i <= a.len(),
        i < b.len(),
        forall|j: int| 0 <= j < i ==> a[j] == b[j],
        i == a.len() || a[i] < b[i],
    ensures
        bytes_lt_from(a, b, at),
    decreases i - at,
{
    if at < i {
        decides_from(a, b, i, at + 1);
    }
}

/// Returns where `a`, which comes before `b`, first differs from it.
pub proof fn first_difference(a: Seq<u8>, b: Seq<u8>) -> (i: int)
    requires
        bytes_lt(a, b),
    ensures
        0 <= i <= a.len(),
        i < b.len(),
        forall|j: int| 0 <= j < i ==> a[j] == b[j],
        i == a.len() || a[i] < b[i],
{
    difference_from(a, b, 0)
}

proof fn difference_from(a: Seq<u8>, b: Seq<u8>, at: int) -> (i: int)
    requires
        0 <= at,
        at <= a.len(),
        forall|j: int| 0 <= j < at ==> a[j] == b[j],
        bytes_lt_from(a, b, at),
    ensures
        0 <= i <= a.len(),
        i < b.len(),
        forall|j: int| 0 <= j < i ==> a[j] == b[j],
        i == a.len() || a[i] < b[i],
    decreases b.len() - at,
{
    if at == a.len() || a[at] < b[at] {
        at
    } else {
        difference_from(a, b, at + 1)
    }
}

/// A key between a prefix and a key with that prefix has the prefix too.
pub proof fn keys_before_prefixed_key_share_prefix(key: Seq<u8>, later: Seq<u8>, prefix: Seq<u8>)
    requires
        !bytes_lt(key, prefix),
        bytes_le(key, later),
        has_prefix(later, prefix),
    ensures
        has_prefix(key, prefix),
{
    assert forall|j: int| 0 <= j < prefix.len() implies later[j] == prefix[j] by {
        assert(later.subrange(0, prefix.len() as int)[j] == prefix[j]);
    }
    if key != later {
        let i = first_difference(key, later);
        if i < prefix.len() {
            first_difference_decides(key, prefix, i);
        }
        assert(key.subrange(0, prefix.len() as int) =~= prefix);
    }
}

proof fn prefixed_from(key: Seq<u8>, prefix: Seq<u8>, i: int)
    requires
        0 <= i <= prefix.len() <= key.len(),
        forall|j: int| 0 <= j < prefix.len() ==> key[j] == prefix[j],
    ensures
        !bytes_lt_from(key, prefix, i),
    decreases prefix.len() - i,
{
    if i < prefix.len() {
        prefixed_from(key, prefix, i + 1);
    }
}

} // verus!
