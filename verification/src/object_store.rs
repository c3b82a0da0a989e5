//! Provider-agnostic object-store client and an in-memory implementation of it.
//!
//! Every store assigns a fresh `ETag`, [`Precondition::IfNoneMatch`] creates only when the
//! object is absent, and [`Precondition::IfMatch`] stores only when the current `ETag` matches.
//! A failed precondition reports the current `ETag`, so that a compare-and-swap caller can
//! read again and retry.
pub mod assurances;
pub mod backend;
pub mod contract;
pub mod keys;
pub mod listing;
pub mod memory;
pub mod model;
pub mod reclamation;
pub mod report;

use vstd::prelude::*;

use crate::error::Result;

verus! {

/// An opaque entity tag identifying a specific stored version of an object.
#[derive(Debug, PartialEq, Eq, Hash)]
pub struct ETag {
    tag: String,
}

impl View for ETag {
    type V = Seq<char>;

    closed spec fn view(&self) -> Seq<char> {
        self.tag@
    }
}

impl ETag {
    /// Wraps a provider's entity-tag text.
    pub fn new(tag: &str) -> (etag: ETag)
        ensures
            etag@ == tag@,
    {
        ETag { tag: tag.to_owned() }
    }

    /// The underlying entity-tag text.
    pub fn as_str(&self) -> (tag: &str)
        ensures
            tag@ == self@,
    {
        self.tag.as_str()
    }

    /// Tells whether two tags are the same.
    pub fn same(&self, other: &ETag) -> (same: bool)
        ensures
            same == (self@ == other@),
    {
        self.tag == other.tag
    }
}

impl Clone for ETag {
    fn clone(&self) -> (copy: ETag)
        ensures
            copy == *self,
    {
        ETag { tag: self.tag.clone() }
    }
}

/// Provider identity for one stored object version.
///
/// A store that keeps old versions can retain bytes after a delete of the key, so
/// irreversible reclamation refuses objects that have one.
#[derive(Debug, PartialEq, Eq, Hash)]
pub struct ObjectVersion {
    version: String,
}

impl View for ObjectVersion {
    type V = Seq<char>;

    closed spec fn view(&self) -> Seq<char> {
        self.version@
    }
}

impl ObjectVersion {
    /// Wraps the provider's object-version identifier.
    pub fn new(version: &str) -> (wrapped: ObjectVersion)
        ensures
            wrapped@ == version@,
    {
        ObjectVersion { version: version.to_owned() }
    }

    /// Returns the provider's object-version identifier.
    pub fn as_str(&self) -> (version: &str)
        ensures
            version@ == self@,
    {
        self.version.as_str()
    }
}

impl Clone for ObjectVersion {
    fn clone(&self) -> (copy: ObjectVersion)
        ensures
            copy == *self,
    {
        ObjectVersion { version: self.version.clone() }
    }
}

/// Precondition for a conditional write.
#[derive(Debug, PartialEq, Eq)]
pub enum Precondition {
    /// Store only if the object does not exist.
    IfNoneMatch,
    /// Store only if the object exists and its current `ETag` equals this one.
    IfMatch(ETag),
}

impl Clone for Precondition {
    fn clone(&self) -> (copy: Precondition)
        ensures
            copy == *self,
    {
        match self {
            Precondition::IfNoneMatch => Precondition::IfNoneMatch,
            Precondition::IfMatch(etag) => Precondition::IfMatch(etag.clone()),
        }
    }
}

/// The condition a [`Precondition`] states.
pub enum Condition {
    /// The object does not exist.
    Absent,
    /// The object exists with this tag.
    Tagged(Seq<char>),
}

impl View for Precondition {
    type V = Condition;

    open spec fn view(&self) -> Condition {
        match self {
            Precondition::IfNoneMatch => Condition::Absent,
            Precondition::IfMatch(etag) => Condition::Tagged(etag@),
        }
    }
}

/// Outcome of a conditional write.
///
/// A failed precondition is the expected result of losing a compare-and-swap race: it carries
/// the current `ETag` so that the caller can read again and retry.
#[derive(Debug, PartialEq, Eq)]
pub enum PutIf {
    /// The write was applied; the object now has this `ETag`.
    Stored {
        /// The new entity tag of the stored object.
        etag: ETag,
    },
    /// The precondition did not hold; the object was left unchanged.
    PreconditionFailed {
        /// The object's current entity tag, or `None` if it does not exist.
        current: Option<ETag>,
    },
}

impl Clone for PutIf {
    fn clone(&self) -> (copy: PutIf)
        ensures
            copy == *self,
    {
        match self {
            PutIf::Stored { etag } => PutIf::Stored { etag: etag.clone() },
            PutIf::PreconditionFailed { current } => PutIf::PreconditionFailed {
                current: match current {
                    Some(etag) => Some(etag.clone()),
                    None => None,
                },
            },
        }
    }
}

/// Metadata for one object.
#[derive(Debug, PartialEq, Eq)]
pub struct ObjectMeta {
    /// Object key.
    pub key: String,
    /// Object size in bytes.
    pub size: u64,
    /// Current entity tag.
    pub etag: ETag,
    /// Opaque provider version, or `None` for an unversioned object.
    pub version: Option<ObjectVersion>,
}

impl Clone for ObjectMeta {
    fn clone(&self) -> (copy: ObjectMeta)
        ensures
            copy == *self,
    {
        ObjectMeta {
            key: self.key.clone(),
            size: self.size,
            etag: self.etag.clone(),
            version: match &self.version {
                Some(version) => Some(version.clone()),
                None => None,
            },
        }
    }
}

/// One bounded page of a prefix listing.
#[derive(Debug, PartialEq, Eq)]
pub struct ObjectListPage {
    /// Objects in key order.
    pub objects: Vec<ObjectMeta>,
    /// Exclusive key offset for the next page, or `None` at the end of the listing.
    pub next_after: Option<String>,
}

impl Clone for ObjectListPage {
    fn clone(&self) -> (copy: ObjectListPage)
        ensures
            copy.objects@ == self.objects@,
            copy.next_after == self.next_after,
    {
        let mut objects: Vec<ObjectMeta> = Vec::with_capacity(self.objects.len());
        let mut i: usize = 0;
        while i < self.objects.len()
            invariant
                i <= self.objects@.len(),
                objects@ == self.objects@.take(i as int),
            decreases self.objects@.len() - i,
        {
            objects.push(self.objects[i].clone());
            i += 1;
            proof {
                assert(objects@ =~= self.objects@.take(i as int));
            }
        }
        proof {
            assert(objects@ =~= self.objects@);
        }
        ObjectListPage {
            objects,
            next_after: match &self.next_after {
                Some(after) => Some(after.clone()),
                None => None,
            },
        }
    }
}

/// One request to an object store and the reply to it.
#[allow(inconsistent_fields)]
pub enum Exchange {
    /// A read of a whole object.
    Get { key: Seq<char>, reply: Result<Option<Vec<u8>>> },
    /// A read of a part of an object at a known version.
    GetRange { key: Seq<char>, offset: u64, len: u64, etag: Seq<char>, reply: Result<Vec<u8>> },
    /// An unconditional write.
    Put { key: Seq<char>, bytes: Seq<u8>, reply: Result<ETag> },
    /// A delete.
    Delete { key: Seq<char>, reply: Result<()> },
    /// A listing.
    List { prefix: Seq<char>, reply: Result<Vec<ObjectMeta>> },
    /// One page of a listing.
    ListPage {
        prefix: Seq<char>,
        after: Option<Seq<char>>,
        limit: usize,
        reply: Result<ObjectListPage>,
    },
    /// A read of metadata.
    Head { key: Seq<char>, reply: Result<Option<ObjectMeta>> },
    /// A conditional write.
    PutIf { key: Seq<char>, bytes: Seq<u8>, condition: Condition, reply: Result<PutIf> },
}

/// The characters of an optional text.
pub open spec fn optional_text(text: Option<&str>) -> Option<Seq<char>> {
    match text {
        Some(text) => Some(text@),
        None => None,
    }
}

/// A flat key/value object store: keys are texts, values are immutable bytes with an `ETag`.
///
/// What callers rely on:
/// - `put` always stores and returns a fresh `ETag`.
/// - `get` returns `None` for an absent key; `get_range` fails for an absent key, a range out
///   of bounds, or an `ETag` that is not the current one.
/// - After `put`, or after a `put_if` that stored, later `get` and `head` calls for the same
///   key observe that version or a newer one.
/// - `delete` of an absent key succeeds.
/// - `list` returns the objects whose key starts with the prefix, in key order.
/// - `put_if` applies the write only when the precondition holds, and otherwise reports the
///   current `ETag`.
///
/// None of this is assumed of an implementation. The contracts of the methods say one thing
/// only: what a client was asked and what it replied, in order, is its history.
pub trait ObjectClient: Sized {
    /// The requests made of this client so far, with the replies it gave. A client that is not
    /// verified keeps it without saying what it is; a verified one must define it, for no
    /// method can be shown to extend a history that is left undefined.
    closed spec fn history(&self) -> Seq<Exchange> {
        vstd::pervasive::arbitrary()
    }

    /// Reads a whole object, or `None` when the key is absent.
    fn get(&mut self, key: &str) -> (reply: Result<Option<Vec<u8>>>)
        ensures
            final(self).history() == old(self).history().push(
                (Exchange::Get { key: key@, reply }),
            ),
    ;

    /// Reads `len` bytes from `offset` of the object version `expected_etag`.
    fn get_range(&mut self, key: &str, offset: u64, len: u64, expected_etag: &ETag) -> (reply:
        Result<Vec<u8>>)
        ensures
            final(self).history() == old(self).history().push(
                (Exchange::GetRange { key: key@, offset, len, etag: expected_etag@, reply }),
            ),
    ;

    /// Stores an object, overwriting, and returns its new `ETag`.
    fn put(&mut self, key: &str, bytes: &[u8]) -> (reply: Result<ETag>)
        ensures
            final(self).history() == old(self).history().push(
                (Exchange::Put { key: key@, bytes: bytes@, reply }),
            ),
    ;

    /// Deletes an object.
    fn delete(&mut self, key: &str) -> (reply: Result<()>)
        ensures
            final(self).history() == old(self).history().push(
                (Exchange::Delete { key: key@, reply }),
            ),
    ;

    /// Lists the objects whose key starts with `prefix`, in key order.
    fn list(&mut self, prefix: &str) -> (reply: Result<Vec<ObjectMeta>>)
        ensures
            final(self).history() == old(self).history().push(
                (Exchange::List { prefix: prefix@, reply }),
            ),
    ;

    /// Lists at most `limit` of those objects, after the exclusive key `after`.
    fn list_page(&mut self, prefix: &str, after: Option<&str>, limit: usize) -> (reply: Result<
        ObjectListPage,
    >)
        ensures
            final(self).history() == old(self).history().push(
                (Exchange::ListPage {
                    prefix: prefix@,
                    after: optional_text(after),
                    limit,
                    reply,
                }),
            ),
    ;

    /// Returns an object's metadata, or `None` when the key is absent.
    fn head(&mut self, key: &str) -> (reply: Result<Option<ObjectMeta>>)
        ensures
            final(self).history() == old(self).history().push(
                (Exchange::Head { key: key@, reply }),
            ),
    ;

    /// Stores an object only if `precondition` holds.
    fn put_if(&mut self, key: &str, bytes: &[u8], precondition: Precondition) -> (reply: Result<
        PutIf,
    >)
        ensures
            final(self).history() == old(self).history().push(
                (Exchange::PutIf { key: key@, bytes: bytes@, condition: precondition@, reply }),
            ),
    ;
}

} // verus!
