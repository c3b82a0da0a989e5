//! Prefix extraction policies used by prefix filters.
use vstd::prelude::*;
use vstd::slice::slice_subrange;

use crate::bytes_order;

verus! {

/// Prefix extraction rule used to derive filter keys from user keys.
#[derive(Debug, PartialEq, Eq)]
pub enum PrefixExtractor {
    /// Use the first `usize` bytes as the prefix.
    FixedLen(usize),
    /// Use bytes through and including the first matching separator.
    Separator(u8),
    /// Reserved custom extractor name for host integrations.
    Custom(String),
    /// Do not derive prefixes.
    Disabled,
}

/// Mathematical form of a [`PrefixExtractor`].
pub enum PrefixRule {
    /// See [`PrefixExtractor::FixedLen`].
    FixedLen(usize),
    /// See [`PrefixExtractor::Separator`].
    Separator(u8),
    /// See [`PrefixExtractor::Custom`].
    Custom(Seq<char>),
    /// See [`PrefixExtractor::Disabled`].
    Disabled,
}

impl View for PrefixExtractor {
    type V = PrefixRule;

    open spec fn view(&self) -> PrefixRule {
        match self {
            PrefixExtractor::FixedLen(len) => PrefixRule::FixedLen(*len),
            PrefixExtractor::Separator(separator) => PrefixRule::Separator(*separator),
            PrefixExtractor::Custom(name) => PrefixRule::Custom(name@),
            PrefixExtractor::Disabled => PrefixRule::Disabled,
        }
    }
}

impl PrefixRule {
    /// Whether `prefix` is what the rule takes from `key`.
    pub open spec fn takes(self, key: Seq<u8>, prefix: Seq<u8>) -> bool {
        match self {
            PrefixRule::FixedLen(len) => prefix.len() == len && bytes_order::has_prefix(
                key,
                prefix,
            ),
            PrefixRule::Separator(separator) => {
                &&& prefix.len() > 0
                &&& prefix.last() == separator
                &&& !prefix.drop_last().contains(separator)
                &&& bytes_order::has_prefix(key, prefix)
            },
            PrefixRule::Custom(_) => false,
            PrefixRule::Disabled => false,
        }
    }

    /// Whether the rule takes anything from `key`.
    pub open spec fn applies_to(self, key: Seq<u8>) -> bool {
        match self {
            PrefixRule::FixedLen(len) => len <= key.len(),
            PrefixRule::Separator(separator) => key.contains(separator),
            PrefixRule::Custom(_) => false,
            PrefixRule::Disabled => false,
        }
    }
}

/// A rule takes at most one prefix from a key.
pub proof fn taken_prefix_is_unique(rule: PrefixRule, key: Seq<u8>, a: Seq<u8>, b: Seq<u8>)
    requires
        rule.takes(key, a),
        rule.takes(key, b),
    ensures
        a == b,
{
    assert(a =~= key.subrange(0, a.len() as int));
    assert(b =~= key.subrange(0, b.len() as int));
    if a.len() < b.len() {
        assert(b.drop_last()[a.len() - 1] == a.last());
    } else if b.len() < a.len() {
        assert(a.drop_last()[b.len() - 1] == b.last());
    }
}

/// What the rule takes from a query prefix, it takes from every key that starts
/// with the query prefix: filtering on it never loses a key.
pub proof fn query_prefix_filters_soundly(
    rule: PrefixRule,
    query: Seq<u8>,
    prefix: Seq<u8>,
    key: Seq<u8>,
)
    requires
        rule.takes(query, prefix),
        bytes_order::has_prefix(key, query),
    ensures
        rule.takes(key, prefix),
{
    assert(key.subrange(0, prefix.len() as int) =~= query.subrange(0, prefix.len() as int)) by {
        assert forall|i: int| 0 <= i < prefix.len() implies key[i] == query[i] by {
            assert(key.subrange(0, query.len() as int)[i] == query[i]);
        }
    }
}

impl Clone for PrefixExtractor {
    fn clone(&self) -> (result: PrefixExtractor)
        ensures
            result == *self,
    {
        match self {
            PrefixExtractor::FixedLen(len) => PrefixExtractor::FixedLen(*len),
            PrefixExtractor::Separator(separator) => PrefixExtractor::Separator(*separator),
            PrefixExtractor::Custom(name) => PrefixExtractor::Custom(name.clone()),
            PrefixExtractor::Disabled => PrefixExtractor::Disabled,
        }
    }
}

impl PrefixExtractor {
    /// Tells whether two rules are the same.
    pub fn same(&self, other: &PrefixExtractor) -> (same: bool)
        ensures
            same == (self@ == other@),
    {
        match (self, other) {
            (PrefixExtractor::FixedLen(a), PrefixExtractor::FixedLen(b)) => *a == *b,
            (PrefixExtractor::Separator(a), PrefixExtractor::Separator(b)) => *a == *b,
            (PrefixExtractor::Custom(a), PrefixExtractor::Custom(b)) => *a == *b,
            (PrefixExtractor::Disabled, PrefixExtractor::Disabled) => true,
            _ => false,
        }
    }
}

impl Default for PrefixExtractor {
    fn default() -> (result: PrefixExtractor)
        ensures
            result@ == PrefixRule::Disabled,
    {
        PrefixExtractor::Disabled
    }
}

impl PrefixExtractor {
    /// Extracts a filterable prefix from `key` when this extractor supports it.
    pub fn extract<'key>(&self, key: &'key [u8]) -> (prefix: Option<&'key [u8]>)
        ensures
            match prefix {
                Some(prefix) => self@.applies_to(key@) && self@.takes(key@, prefix@),
                None => !self@.applies_to(key@),
            },
    {
        match self {
            PrefixExtractor::FixedLen(len) => {
                if *len <= key.len() {
                    let prefix = slice_subrange(key, 0, *len);
                    assert(key@.subrange(0, *len as int) =~= prefix@);
                    Some(prefix)
                } else {
                    None
                }
            },
            PrefixExtractor::Separator(separator) => through_separator(key, *separator),
            PrefixExtractor::Custom(_) => None,
            PrefixExtractor::Disabled => None,
        }
    }

    /// Returns whether this extractor is enabled.
    pub fn is_enabled(&self) -> (enabled: bool)
        ensures
            enabled == !(self@ is Disabled),
    {
        match self {
            PrefixExtractor::Disabled => false,
            _ => true,
        }
    }

    /// Returns whether prefix filters can be built from this extractor.
    pub fn supports_prefix_filter(&self) -> (supported: bool)
        ensures
            supported == (self@ is FixedLen || self@ is Separator),
    {
        match self {
            PrefixExtractor::FixedLen(_) => true,
            PrefixExtractor::Separator(_) => true,
            _ => false,
        }
    }

    /// Returns the filter prefix that every key under `query_prefix` shares, if the
    /// query prefix is long enough to determine it.
    pub fn query_filter_prefix<'prefix>(&self, query_prefix: &'prefix [u8]) -> (prefix: Option<
        &'prefix [u8],
    >)
        ensures
            match prefix {
                Some(prefix) => self@.applies_to(query_prefix@) && self@.takes(
                    query_prefix@,
                    prefix@,
                ),
                None => !self@.applies_to(query_prefix@),
            },
    {
        self.extract(query_prefix)
    }
}

fn through_separator<'key>(key: &'key [u8], separator: u8) -> (prefix: Option<&'key [u8]>)
    ensures
        match prefix {
            Some(prefix) => key@.contains(separator) && PrefixRule::Separator(separator).takes(
                key@,
                prefix@,
            ),
            None => !key@.contains(separator),
        },
{
    let mut i: usize = 0;
    while i < key.len()
        invariant
            i <= key.len(),
            forall|j: int| 0 <= j < i ==> key@[j] != separator,
        decreases key.len() - i,
    {
        if key[i] == separator {
            let prefix = slice_subrange(key, 0, i + 1);
            proof {
                assert(key@.subrange(0, i + 1) =~= prefix@);
                assert(prefix@.last() == key@[i as int]);
                assert(key@.contains(key@[i as int]));
            }
            return Some(prefix);
        }
        i += 1;
    }
    None
}

/// A rule applies to a key exactly if it takes a prefix from it: one of a fixed length is the first
/// bytes of the key, and one that ends with a separator is the key up to its first separator, that
/// one included. A disabled or custom rule takes none.
pub proof fn taken_prefix_is_the_front_of_the_key(rule: PrefixRule, key: Seq<u8>, at: int)
    ensures
        rule matches PrefixRule::FixedLen(len) ==> (rule.applies_to(key) <==> key.len() >= len) && (
        key.len() >= len ==> rule.takes(key, key.take(len as int))),
        rule matches PrefixRule::Separator(separator) ==> (0 <= at < key.len() && key[at]
            == separator && (forall|j: int| 0 <= j < at ==> key[j] != separator)
            ==> rule.applies_to(key) && rule.takes(key, key.take(at + 1))),
        rule matches PrefixRule::Separator(separator) ==> ((forall|j: int|
            0 <= j < key.len() ==> key[j] != separator) ==> !rule.applies_to(key)),
        rule is Custom || rule is Disabled ==> !rule.applies_to(key) && forall|prefix: Seq<u8>|
            !#[trigger] rule.takes(key, prefix),
        rule.applies_to(key) <==> exists|prefix: Seq<u8>| #[trigger] rule.takes(key, prefix),
{
    match rule {
        PrefixRule::FixedLen(len) => {
            if key.len() >= len {
                assert(rule.takes(key, key.take(len as int)));
            }
        },
        PrefixRule::Separator(separator) => {
            if 0 <= at < key.len() && key[at] == separator && (forall|j: int|
                0 <= j < at ==> key[j] != separator) {
                assert(key.contains(separator));
                assert(key.take(at + 1).drop_last() =~= key.take(at));
                assert(rule.takes(key, key.take(at + 1)));
            }
            if key.contains(separator) {
                let first = first_separator(key, separator);
                assert(key.take(first + 1).drop_last() =~= key.take(first));
                assert(rule.takes(key, key.take(first + 1)));
            }
            if exists|prefix: Seq<u8>| #[trigger] rule.takes(key, prefix) {
                let prefix = choose|prefix: Seq<u8>| #[trigger] rule.takes(key, prefix);
                assert(prefix[prefix.len() - 1] == separator);
                assert(key[prefix.len() - 1] == separator);
            }
        },
        _ => {},
    }
}

proof fn first_separator(key: Seq<u8>, separator: u8) -> (at: int)
    requires
        key.contains(separator),
    ensures
        0 <= at < key.len(),
        key[at] == separator,
        forall|j: int| 0 <= j < at ==> key[j] != separator,
    decreases key.len(),
{
    let shorter = key.drop_last();
    if shorter.contains(separator) {
        let at = first_separator(shorter, separator);
        assert forall|j: int| 0 <= j < at implies key[j] != separator by {
            assert(shorter[j] == key[j]);
        }
        at
    } else {
        let i = choose|i: int| 0 <= i < key.len() && key[i] == separator;
        if i < shorter.len() {
            assert(shorter[i] == separator);
        }
        assert forall|j: int| 0 <= j < key.len() - 1 implies key[j] != separator by {
            assert(shorter[j] == key[j]);
            assert(shorter.contains(shorter[j]));
        }
        key.len() - 1
    }
}

} // verus!
