//! Keyspaces: named parts of a database.
use vstd::prelude::*;

use crate::error::{Error, ErrorKind, Result};
use crate::iterator::Iter;
use crate::lsm::read;
use crate::lsm::tree::LsmTree;
use crate::options::{BucketOptions, DurabilityMode, WriteOptions};
use crate::point_value::PointValueSource;
use crate::selector::Direction;
use crate::snapshot::Snapshot;
use crate::types::{KeyRange, KeyValue, Sequence};
use crate::write_batch::{BatchOperation, Operation};

verus! {

/// How a keyspace behaves.
pub type KeyspaceOptions = BucketOptions;

/// The name of a keyspace.
#[derive(Debug, PartialEq, Eq, Hash)]
pub struct KeyspaceName(String);

impl View for KeyspaceName {
    type V = Seq<char>;

    closed spec fn view(&self) -> Seq<char> {
        self.0@
    }
}

impl KeyspaceName {
    /// Names a keyspace.
    pub fn new(name: String) -> (result: KeyspaceName)
        ensures
            result@ == name@,
    {
        KeyspaceName(name)
    }

    /// Returns the name as text.
    pub fn as_str(&self) -> (name: &str)
        ensures
            name@ == self@,
    {
        self.0.as_str()
    }
}

impl From<String> for KeyspaceName {
    fn from(value: String) -> (name: KeyspaceName)
        ensures
            name@ == value@,
    {
        KeyspaceName(value)
    }
}

impl vstd::std_specs::convert::FromSpecImpl<String> for KeyspaceName {
    open spec fn obeys_from_spec() -> bool {
        true
    }

    closed spec fn from_spec(value: String) -> KeyspaceName {
        KeyspaceName(value)
    }
}

impl<'a> From<&'a str> for KeyspaceName {
    fn from(value: &'a str) -> (name: KeyspaceName)
        ensures
            name@ == value@,
    {
        KeyspaceName::new(value.to_owned())
    }
}

impl<'a> vstd::std_specs::convert::FromSpecImpl<&'a str> for KeyspaceName {
    open spec fn obeys_from_spec() -> bool {
        false
    }

    open spec fn from_spec(value: &'a str) -> KeyspaceName {
        arbitrary()
    }
}

impl Clone for KeyspaceName {
    fn clone(&self) -> (copy: KeyspaceName)
        ensures
            copy@ == self@,
    {
        KeyspaceName(self.0.clone())
    }
}

/// What a keyspace hands to its database to be committed.
#[derive(Debug)]
pub struct KeyspaceWrite {
    /// The operations of the batch.
    pub operations: Vec<BatchOperation>,
    /// How durable the commit must be.
    pub options: WriteOptions,
}

/// Whether a write is one operation on one keyspace, with the default options.
pub open spec fn writes(write: KeyspaceWrite, keyspace: Seq<char>, operation: Operation) -> bool {
    &&& write.operations@.len() == 1
    &&& write.operations@[0].spec_bucket() == keyspace
    &&& write.operations@[0]@ == operation
    &&& write.options == (WriteOptions { durability: DurabilityMode::Buffered })
}

/// A named part of a database.
#[derive(Debug)]
pub struct Keyspace {
    name: KeyspaceName,
    options: KeyspaceOptions,
}

impl Clone for Keyspace {
    fn clone(&self) -> (copy: Keyspace)
        ensures
            copy.spec_name() == self.spec_name(),
            copy.spec_options() == self.spec_options(),
    {
        Keyspace { name: self.name.clone(), options: self.options.clone() }
    }
}

impl Keyspace {
    /// Its name.
    pub closed spec fn spec_name(&self) -> Seq<char> {
        self.name@
    }

    /// How it behaves.
    pub closed spec fn spec_options(&self) -> KeyspaceOptions {
        self.options
    }

    /// A keyspace of a name.
    pub fn new(name: KeyspaceName, options: KeyspaceOptions) -> (keyspace: Keyspace)
        ensures
            keyspace.spec_name() == name@,
            keyspace.spec_options() == options,
    {
        Keyspace { name, options }
    }

    /// Returns its name.
    pub fn name(&self) -> (name: &KeyspaceName)
        ensures
            name@ == self.spec_name(),
    {
        &self.name
    }

    /// Returns how it behaves.
    pub fn options(&self) -> (options: &KeyspaceOptions)
        ensures
            *options == self.spec_options(),
    {
        &self.options
    }

    /// Reads a key as of the last commit. `tree` holds the rows of the keyspace.
    pub fn get(&self, tree: &LsmTree, last_committed: Sequence, key: &[u8]) -> (result: Result<
        Option<PointValueSource>,
    >)
        requires
            tree.wf(),
        ensures
            tree.answers(key@, last_committed, result),
            match result {
                Ok(found) => tree.finds(key@, last_committed, read::source_view(found)),
                Err(error) => tree.breaks(key@, last_committed) && error.says(
                    ErrorKind::Corruption,
                    "put record is missing value bytes"@,
                ),
            },
    {
        tree.read_visible_point_value(key, last_committed)
    }

    /// Reads a key through a snapshot. `tree` holds the rows of the keyspace.
    pub fn get_at(&self, tree: &LsmTree, snapshot: &Snapshot, key: &[u8]) -> (result: Result<
        Option<PointValueSource>,
    >)
        requires
            tree.wf(),
        ensures
            tree.answers(key@, snapshot.read_sequence, result),
            match result {
                Ok(found) => tree.finds(
                    key@,
                    snapshot.read_sequence,
                    read::source_view(found),
                ),
                Err(error) => tree.breaks(key@, snapshot.read_sequence) && error.says(
                    ErrorKind::Corruption,
                    "put record is missing value bytes"@,
                ),
            },
    {
        tree.read_visible_point_value(key, snapshot.read_sequence())
    }

    /// Returns the write that sets a value.
    pub fn insert(&self, key: Vec<u8>, value: Vec<u8>) -> (write: KeyspaceWrite)
        ensures
            writes(write, self.spec_name(), Operation::Put(key@, value@)),
    {
        let mut operations: Vec<BatchOperation> = Vec::new();
        operations.push(BatchOperation::Put { bucket: self.name.0.clone(), key, value });
        KeyspaceWrite { operations, options: WriteOptions::default() }
    }

    /// Returns the write that deletes a key.
    pub fn remove(&self, key: Vec<u8>) -> (write: KeyspaceWrite)
        ensures
            writes(write, self.spec_name(), Operation::Delete(key@)),
    {
        let mut operations: Vec<BatchOperation> = Vec::new();
        operations.push(BatchOperation::Delete { bucket: self.name.0.clone(), key });
        KeyspaceWrite { operations, options: WriteOptions::default() }
    }

    fn ensure_open(open: bool) -> (result: Result<()>)
        ensures
            match result {
                Ok(()) => open,
                Err(error) => !open && error.says(ErrorKind::Closed, Seq::empty()),
            },
    {
        if open {
            Ok(())
        } else {
            Err(Error::Closed)
        }
    }

    /// Reads a range of keys, which keyspaces do not support. `open` tells whether the database
    /// is open.
    pub fn range(&self, open: bool, range: KeyRange) -> (result: Result<Iter>)
        ensures
            result matches Err(error) && if open {
                error.says(ErrorKind::Unsupported, "range iteration is not implemented yet"@)
            } else {
                error.says(ErrorKind::Closed, Seq::empty())
            },
    {
        match Keyspace::ensure_open(open) {
            Err(error) => Err(error),
            Ok(()) => Err(Error::unsupported("range iteration is not implemented yet")),
        }
    }

    /// Reads the keys with a prefix, which keyspaces do not support. `open` tells whether the
    /// database is open.
    pub fn prefix(&self, open: bool, prefix: Vec<u8>) -> (result: Result<Iter>)
        ensures
            result matches Err(error) && if open {
                error.says(ErrorKind::Unsupported, "prefix iteration is not implemented yet"@)
            } else {
                error.says(ErrorKind::Closed, Seq::empty())
            },
    {
        match Keyspace::ensure_open(open) {
            Err(error) => Err(error),
            Ok(()) => Err(Error::unsupported("prefix iteration is not implemented yet")),
        }
    }

    /// Returns an iterator without rows.
    pub fn empty_iter(direction: Direction) -> (iter: Iter)
        ensures
            iter.wf(),
            iter.spec_direction() == direction,
            iter.items() == Some(Seq::<KeyValue>::empty()),
    {
        Iter::empty(direction)
    }
}

/// A read as of the last commit gives back what a read through a snapshot of that commit gives
/// back.
pub proof fn latest_read_is_snapshot_read(
    tree: LsmTree,
    last_committed: Sequence,
    snapshot: Snapshot,
    key: Seq<u8>,
    latest: Result<Option<PointValueSource>>,
    pinned: Result<Option<PointValueSource>>,
)
    requires
        snapshot.read_sequence == last_committed,
        tree.answers(key, last_committed, latest),
        tree.answers(key, snapshot.read_sequence, pinned),
    ensures
        read::same_answer(latest, pinned),
{
}

/// A write of a keyspace is one operation on that keyspace, buffered: an insert puts the value under
/// the key, and a removal deletes the key.
pub proof fn keyspace_writes_one_operation(
    write: KeyspaceWrite,
    keyspace: Seq<char>,
    key: Seq<u8>,
    value: Seq<u8>,
)
    ensures
        writes(write, keyspace, Operation::Put(key, value)) ==> write.operations@.len() == 1 && (
        write.operations@[0] matches BatchOperation::Put { bucket, key: at, value: put } && bucket@
            == keyspace && at@ == key && put@ == value) && write.options.durability is Buffered,
        writes(write, keyspace, Operation::Delete(key)) ==> write.operations@.len() == 1 && (
        write.operations@[0] matches BatchOperation::Delete { bucket, key: at } && bucket@
            == keyspace && at@ == key) && write.options.durability is Buffered,
{
}

} // verus!
