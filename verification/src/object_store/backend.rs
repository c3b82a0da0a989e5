//! Table, blob and content objects over an object client.
use vstd::prelude::*;
use vstd::string::*;

use crate::bytes_order::bytes_equal;
use crate::error::{Error, ErrorKind, Result};
use crate::limits;
use crate::object_store::contract;
use crate::object_store::keys;
use crate::object_store::keys::canonical_object_key;
use crate::object_store::reclamation;
use crate::object_store::reclamation::verify_object_store_reclamation_absent;
use crate::object_store::{Condition, ETag, Exchange, ObjectClient, ObjectMeta, Precondition, PutIf};
use crate::text;
use crate::text::{join, push_decimal};

verus! {

/// What an object of a database holds.
#[derive(Debug, Clone, Copy, PartialEq, Eq, PartialOrd, Ord, Hash, Structural)]
pub enum StorageObjectKind {
    /// The manifest.
    Manifest,
    /// A table.
    Table,
    /// A blob file.
    Blob,
    /// A barrier that content readers observe.
    ContentAccessBarrier,
    /// A chunk of content.
    ContentChunk,
    /// A descriptor of content.
    ContentDescriptor,
}

/// Identity of one object: what it holds and where it is.
#[derive(Debug, PartialEq, Eq, PartialOrd, Ord, Hash)]
pub struct StorageObjectId {
    kind: StorageObjectKind,
    path: String,
}

impl StorageObjectId {
    /// What the object holds.
    pub closed spec fn spec_kind(&self) -> StorageObjectKind {
        self.kind
    }

    /// Where the object is.
    pub closed spec fn spec_path(&self) -> Seq<char> {
        self.path@
    }

    /// Names an object by its path.
    pub fn native_file(kind: StorageObjectKind, path: &str) -> (object: StorageObjectId)
        ensures
            object.spec_kind() == kind,
            object.spec_path() == path@,
    {
        StorageObjectId { kind, path: path.to_owned() }
    }

    /// Returns what the object holds.
    pub fn kind(&self) -> (kind: StorageObjectKind)
        ensures
            kind == self.spec_kind(),
    {
        self.kind
    }

    /// Returns where the object is.
    pub fn path(&self) -> (path: &str)
        ensures
            path@ == self.spec_path(),
    {
        self.path.as_str()
    }
}

impl Clone for StorageObjectId {
    fn clone(&self) -> (copy: StorageObjectId)
        ensures
            copy.spec_kind() == self.spec_kind(),
            copy.spec_path() == self.spec_path(),
    {
        StorageObjectId { kind: self.kind, path: self.path.clone() }
    }
}

/// Whether objects of a kind are written once and never changed.
pub open spec fn is_immutable(kind: StorageObjectKind) -> bool {
    match kind {
        StorageObjectKind::Manifest => false,
        _ => true,
    }
}

/// The most bytes of an object of a kind that are read at once.
pub open spec fn whole_object_limit(kind: StorageObjectKind) -> Option<usize> {
    match kind {
        StorageObjectKind::Manifest => Some(limits::MAX_MANIFEST_PAYLOAD_BYTES),
        StorageObjectKind::Table => Some(limits::MAX_WHOLE_TABLE_DECODE_BYTES),
        StorageObjectKind::Blob => Some(limits::MAX_WHOLE_BLOB_DECODE_BYTES),
        _ => None,
    }
}

/// Whether an object of this size may be read at once.
pub open spec fn may_be_read(kind: StorageObjectKind, size: int) -> bool {
    &&& size <= usize::MAX
    &&& whole_object_limit(kind) is Some ==> size <= whole_object_limit(kind)->0
}

/// What keeps an object of this size from being read at once.
pub open spec fn size_fault(kind: StorageObjectKind, path: Seq<char>, size: nat) -> Seq<char> {
    if size > usize::MAX {
        "object "@ + path + " length exceeds usize"@
    } else {
        limits::exceeds_text("object length"@, size, whole_object_limit(kind)->0 as nat)
    }
}

/// Whether an error says what keeps an object of this size from being read at once.
pub open spec fn refuses_size(
    error: Error,
    kind: StorageObjectKind,
    path: Seq<char>,
    size: nat,
) -> bool {
    &&& !may_be_read(kind, size as int)
    &&& error.says(ErrorKind::Corruption, size_fault(kind, path, size))
}

/// Whether a create that was refused, or whose reply was lost, may count as done.
pub open spec fn retry_allowed(exists: bool, same_bytes: bool) -> bool {
    exists && same_bytes
}

/// Tells whether a create that was refused, or whose reply was lost, may count as done.
pub fn immutable_retry_allowed(exists: bool, same_bytes: bool) -> (allowed: bool)
    ensures
        allowed == retry_allowed(exists, same_bytes),
{
    exists && same_bytes
}

/// Refuses an object that is too large to be read at once.
pub fn ensure_whole_object_read_len(object: &StorageObjectId, len: usize) -> (result: Result<()>)
    ensures
        match result {
            Ok(()) => may_be_read(object.spec_kind(), len as int),
            Err(error) => refuses_size(
                error,
                object.spec_kind(),
                object.spec_path(),
                len as nat,
            ),
        },
{
    let limit: Option<usize> = match object.kind() {
        StorageObjectKind::Manifest => Some(limits::MAX_MANIFEST_PAYLOAD_BYTES),
        StorageObjectKind::Table => Some(limits::MAX_WHOLE_TABLE_DECODE_BYTES),
        StorageObjectKind::Blob => Some(limits::MAX_WHOLE_BLOB_DECODE_BYTES),
        _ => None,
    };
    match limit {
        Some(max) => limits::ensure_corruption_len(len, max, "object length"),
        None => Ok(()),
    }
}

/// Refuses an object whose metadata says that it is too large to be read at once.
pub fn ensure_object_meta_read_len(object: &StorageObjectId, meta: &ObjectMeta) -> (result: Result<
    usize,
>)
    ensures
        match result {
            Ok(len) => may_be_read(object.spec_kind(), meta.size as int) && len == meta.size,
            Err(error) => refuses_size(
                error,
                object.spec_kind(),
                object.spec_path(),
                meta.size as nat,
            ),
        },
{
    if meta.size > usize::MAX as u64 {
        let message: String = join("object ", object.path());
        return Err(Error::Corruption { message: join(message.as_str(), " length exceeds usize") });
    }
    let len: usize = meta.size as usize;
    match ensure_whole_object_read_len(object, len) {
        Ok(()) => Ok(len),
        Err(error) => Err(error),
    }
}

/// How a failed read of an immutable object is reported: a version that changed is a
/// contradiction, every other error is passed on.
pub open spec fn read_error(path: Seq<char>, replied: Error, error: Error) -> bool {
    if replied.kind() == ErrorKind::ObjectVersionChanged {
        error.says(
            ErrorKind::Corruption,
            "immutable object "@ + path + " changed or disappeared while being read"@,
        )
    } else {
        error == replied
    }
}

/// Reports a failed read of an immutable object.
pub fn immutable_object_read_error(object: &StorageObjectId, error: Error) -> (reported: Error)
    ensures
        read_error(object.spec_path(), error, reported),
{
    match error {
        Error::ObjectVersionChanged { .. } => {
            let message: String = join("immutable object ", object.path());
            Error::Corruption {
                message: join(message.as_str(), " changed or disappeared while being read"),
            }
        },
        other => other,
    }
}

/// What a write did and found.
///
/// An immutable object is created. Where the create is refused, or its reply is lost, the
/// object is read, and the write counts as done only if it holds the intended bytes.
pub open spec fn written(
    before: Seq<Exchange>,
    after: Seq<Exchange>,
    kind: StorageObjectKind,
    path: Seq<char>,
    bytes: Seq<u8>,
    result: Result<()>,
) -> bool {
    let from = before.len() as int;
    let key = keys::canonical(path);
    if !keys::is_key(path) {
        &&& after == before
        &&& result matches Err(error) && keys::refuses_key(error, path)
    } else if is_immutable(kind) {
        &&& contract::asked_since(before, after, 2)
        &&& contract::is_put_if(after[from], key, bytes, Condition::Absent)
        &&& if contract::written_tag(after[from]) is Some {
            after.len() == from + 1 && result is Ok
        } else {
            &&& after.len() == from + 2
            &&& contract::is_get(after[from + 1], key)
            &&& match after[from + 1] {
                Exchange::Get { reply: Ok(Some(current)), .. } => if current@ == bytes {
                    result is Ok
                } else {
                    result matches Err(error) && error.says(
                        ErrorKind::Corruption,
                        if contract::reply_error(after[from]) is Some {
                            "immutable object "@ + key
                                + " appeared with different bytes after an uncertain create"@
                        } else {
                            "immutable object "@ + key + " already exists with different bytes"@
                        },
                    )
                },
                _ => match contract::reply_error(after[from]) {
                    Some(replied) => result == Err::<(), Error>(replied),
                    None => result matches Err(error) && contract::fails_with(
                        after[from + 1],
                        error,
                        "immutable object "@ + key + " already exists with different bytes"@,
                    ),
                },
            }
        }
    } else {
        &&& contract::asked_since(before, after, 1)
        &&& after[from] matches Exchange::Put { key: asked, bytes: sent, .. } && asked == key && sent
            == bytes
        &&& match contract::reply_error(after[from]) {
            Some(replied) => result == Err::<(), Error>(replied),
            None => result is Ok,
        }
    }
}

/// What a delete did and found.
pub open spec fn removed(
    before: Seq<Exchange>,
    after: Seq<Exchange>,
    kind: StorageObjectKind,
    path: Seq<char>,
    result: Result<()>,
) -> bool {
    let from = before.len() as int;
    if kind == StorageObjectKind::Table || kind == StorageObjectKind::Blob {
        &&& after == before
        &&& result matches Err(error) && error.says(
            ErrorKind::UnsupportedBackend,
            "immutable object-store table/blob deletion requires a durable reader-retirement protocol"@,
        )
    } else if !keys::is_key(path) {
        &&& after == before
        &&& result matches Err(error) && keys::refuses_key(error, path)
    } else {
        &&& contract::asked_since(before, after, 1)
        &&& contract::is_delete(after[from], keys::canonical(path))
        &&& match contract::reply_error(after[from]) {
            Some(replied) => result == Err::<(), Error>(replied),
            None => result is Ok,
        }
    }
}

/// What a read by known metadata did and found.
///
/// The size is tested first. The bytes of that version are read; of an empty object, the
/// metadata is read again instead.
pub open spec fn read_by_meta(
    before: Seq<Exchange>,
    after: Seq<Exchange>,
    kind: StorageObjectKind,
    path: Seq<char>,
    key: Seq<char>,
    meta: ObjectMeta,
    result: Result<Vec<u8>>,
) -> bool {
    let from = before.len() as int;
    if !may_be_read(kind, meta.size as int) {
        &&& after == before
        &&& result matches Err(error) && refuses_size(error, kind, path, meta.size as nat)
    } else if meta.size == 0 {
        &&& contract::asked_since(before, after, 1)
        &&& contract::is_head(after[from], key)
        &&& match result {
            Ok(bytes) => bytes@.len() == 0 && contract::head_shows(after[from], key, 0, meta.etag@),
            Err(error) => !contract::head_shows(after[from], key, 0, meta.etag@)
                && contract::fails_with(
                after[from],
                error,
                if after[from] matches Exchange::Head { reply: Ok(None), .. } {
                    "object "@ + path + " disappeared after HEAD"@
                } else {
                    "object "@ + path + " changed after metadata was read"@
                },
            ),
        }
    } else {
        &&& contract::asked_since(before, after, 1)
        &&& after[from] matches Exchange::GetRange { key: asked, offset, len, etag, reply } && {
            &&& asked == key
            &&& offset == 0
            &&& len == meta.size
            &&& etag == meta.etag@
            &&& match result {
                Ok(bytes) => reply == Ok::<Vec<u8>, Error>(bytes) && bytes@.len() == meta.size,
                Err(error) => match reply {
                    Ok(read) => read@.len() != meta.size && error.says(
                        ErrorKind::Corruption,
                        "object "@ + path + " range read returned "@ + text::decimal(read@.len())
                            + " bytes for declared length "@ + text::decimal(meta.size as nat),
                    ),
                    Err(replied) => read_error(path, replied, error),
                },
            }
        }
    }
}

/// What a whole read did and found.
pub open spec fn read_whole(
    before: Seq<Exchange>,
    after: Seq<Exchange>,
    kind: StorageObjectKind,
    path: Seq<char>,
    result: Result<Option<Vec<u8>>>,
) -> bool {
    let from = before.len() as int;
    let key = keys::canonical(path);
    if !keys::is_key(path) {
        &&& after == before
        &&& result matches Err(error) && keys::refuses_key(error, path)
    } else {
        &&& contract::asked_since(before, after, 2)
        &&& contract::is_head(after[from], key)
        &&& match after[from] {
            Exchange::Head { reply: Ok(Some(meta)), .. } => {
                let middle = after.take(from + 1);
                match result {
                    Ok(Some(bytes)) => read_by_meta(middle, after, kind, path, key, meta, Ok(bytes)),
                    Ok(None) => false,
                    Err(error) => read_by_meta(middle, after, kind, path, key, meta, Err(error)),
                }
            },
            Exchange::Head { reply: Ok(None), .. } => after.len() == from + 1 && result
                == Ok::<Option<Vec<u8>>, Error>(None),
            Exchange::Head { reply: Err(replied), .. } => after.len() == from + 1 && result
                == Err::<Option<Vec<u8>>, Error>(replied),
            _ => false,
        }
    }
}

/// Reads the bytes of the object version that `meta` describes.
pub fn read_object_bytes_by_meta<C: ObjectClient>(
    client: &mut C,
    key: &str,
    object: &StorageObjectId,
    meta: &ObjectMeta,
) -> (result: Result<Vec<u8>>)
    ensures
        read_by_meta(
            old(client).history(),
            final(client).history(),
            object.spec_kind(),
            object.spec_path(),
            key@,
            *meta,
            result,
        ),
{
    let expected: usize = match ensure_object_meta_read_len(object, meta) {
        Ok(expected) => expected,
        Err(error) => {
            return Err(error);
        },
    };
    if expected == 0 {
        let current: ObjectMeta = match client.head(key) {
            Err(error) => {
                return Err(error);
            },
            Ok(None) => {
                let message: String = join("object ", object.path());
                return Err(
                    Error::Corruption { message: join(message.as_str(), " disappeared after HEAD") },
                );
            },
            Ok(Some(current)) => current,
        };
        if current.size != 0 || !current.etag.same(&meta.etag) {
            let message: String = join("object ", object.path());
            return Err(
                Error::Corruption {
                    message: join(message.as_str(), " changed after metadata was read"),
                },
            );
        }
        return Ok(Vec::new());
    }
    let bytes: Vec<u8> = match client.get_range(key, 0, meta.size, &meta.etag) {
        Ok(bytes) => bytes,
        Err(error) => {
            return Err(immutable_object_read_error(object, error));
        },
    };
    if bytes.len() != expected {
        let message: String = join("object ", object.path());
        let mut message: String = join(message.as_str(), " range read returned ");
        push_decimal(&mut message, bytes.len() as u64);
        let mut message: String = join(message.as_str(), " bytes for declared length ");
        push_decimal(&mut message, expected as u64);
        return Err(Error::Corruption { message });
    }
    Ok(bytes)
}

/// An object-storage byte backend: table, blob and content objects over an object client.
///
/// The path of an object, in canonical form, is its key.
pub struct ObjectStoreBackend<C> {
    /// The client that holds the objects.
    pub client: C,
}

/// A bounded random-access object handle.
///
/// Opening reads metadata only; the bytes are fetched by ranges when they are needed.
pub struct ObjectStoreReadObject {
    /// The object.
    pub object: StorageObjectId,
    /// Its key.
    pub key: String,
    /// Its length when it was opened.
    pub len: u64,
    /// Its version when it was opened.
    pub etag: ETag,
}

impl<C: ObjectClient> ObjectStoreBackend<C> {
    /// Stores objects through a client.
    pub fn new(client: C) -> (backend: ObjectStoreBackend<C>)
        ensures
            backend.client == client,
    {
        ObjectStoreBackend { client }
    }

    /// Writes an object.
    pub fn write_object(&mut self, object: &StorageObjectId, bytes: &[u8]) -> (result: Result<()>)
        ensures
            written(
                old(self).client.history(),
                final(self).client.history(),
                object.spec_kind(),
                object.spec_path(),
                bytes@,
                result,
            ),
    {
        let key: String = match canonical_object_key(object.path()) {
            Ok(key) => key,
            Err(error) => {
                return Err(error);
            },
        };
        let immutable: bool = match object.kind() {
            StorageObjectKind::Manifest => false,
            _ => true,
        };
        if !immutable {
            return match self.client.put(key.as_str(), bytes) {
                Ok(_) => Ok(()),
                Err(error) => Err(error),
            };
        }
        match self.client.put_if(key.as_str(), bytes, Precondition::IfNoneMatch) {
            Ok(PutIf::Stored { .. }) => Ok(()),
            Ok(PutIf::PreconditionFailed { .. }) => {
                let (exists, same): (bool, bool) = match self.client.get(key.as_str()) {
                    Err(error) => {
                        return Err(error);
                    },
                    Ok(None) => (false, false),
                    Ok(Some(current)) => (true, bytes_equal(current.as_slice(), bytes)),
                };
                if immutable_retry_allowed(exists, same) {
                    Ok(())
                } else {
                    let message: String = join("immutable object ", key.as_str());
                    Err(
                        Error::Corruption {
                            message: join(message.as_str(), " already exists with different bytes"),
                        },
                    )
                }
            },
            Err(error) => {
                let (exists, same): (bool, bool) = match self.client.get(key.as_str()) {
                    Ok(Some(current)) => (true, bytes_equal(current.as_slice(), bytes)),
                    _ => (false, false),
                };
                if immutable_retry_allowed(exists, same) {
                    Ok(())
                } else if exists {
                    let message: String = join("immutable object ", key.as_str());
                    Err(
                        Error::Corruption {
                            message: join(
                                message.as_str(),
                                " appeared with different bytes after an uncertain create",
                            ),
                        },
                    )
                } else {
                    Err(error)
                }
            },
        }
    }

    /// Deletes an object. Tables and blobs are never deleted this way.
    pub fn delete_object(&mut self, object: &StorageObjectId) -> (result: Result<()>)
        ensures
            removed(
                old(self).client.history(),
                final(self).client.history(),
                object.spec_kind(),
                object.spec_path(),
                result,
            ),
    {
        let kind: StorageObjectKind = object.kind();
        if kind == StorageObjectKind::Table || kind == StorageObjectKind::Blob {
            return Err(
                Error::unsupported_backend(
                    "immutable object-store table/blob deletion requires a durable reader-retirement protocol",
                ),
            );
        }
        let key: String = match canonical_object_key(object.path()) {
            Ok(key) => key,
            Err(error) => {
                return Err(error);
            },
        };
        self.client.delete(key.as_str())
    }

    /// Reads a whole object, or `None` when it does not exist.
    pub fn read_object_bytes(&mut self, object: &StorageObjectId) -> (result: Result<
        Option<Vec<u8>>,
    >)
        ensures
            read_whole(
                old(self).client.history(),
                final(self).client.history(),
                object.spec_kind(),
                object.spec_path(),
                result,
            ),
    {
        match self.read_object_versioned(object) {
            Ok(None) => Ok(None),
            Ok(Some((bytes, _))) => Ok(Some(bytes)),
            Err(error) => Err(error),
        }
    }

    /// Reads a whole object with its version, or `None` when it does not exist.
    pub fn read_object_versioned(&mut self, object: &StorageObjectId) -> (result: Result<
        Option<(Vec<u8>, ETag)>,
    >)
        ensures
            read_whole(
                old(self).client.history(),
                final(self).client.history(),
                object.spec_kind(),
                object.spec_path(),
                match result {
                    Ok(Some((bytes, _))) => Ok(Some(bytes)),
                    Ok(None) => Ok(None),
                    Err(error) => Err(error),
                },
            ),
            result matches Ok(Some((_, etag))) ==> (final(self).client.history()[old(
                self,
            ).client.history().len() as int] matches Exchange::Head { reply: Ok(Some(meta)), .. }
                && meta.etag == etag),
    {
        let key: String = match canonical_object_key(object.path()) {
            Ok(key) => key,
            Err(error) => {
                return Err(error);
            },
        };
        let ghost before = self.client.history();
        let meta: ObjectMeta = match self.client.head(key.as_str()) {
            Err(error) => {
                return Err(error);
            },
            Ok(None) => {
                return Ok(None);
            },
            Ok(Some(meta)) => meta,
        };
        let ghost middle = self.client.history();
        let read: Result<Vec<u8>> = read_object_bytes_by_meta(
            &mut self.client,
            key.as_str(),
            object,
            &meta,
        );
        proof {
            assert(middle.len() == before.len() + 1);
            assert(self.client.history().take(before.len() as int + 1) =~= middle);
        }
        match read {
            Ok(bytes) => Ok(Some((bytes, meta.etag))),
            Err(error) => Err(error),
        }
    }

    /// Writes an object if a precondition holds.
    pub fn put_object_if(
        &mut self,
        object: &StorageObjectId,
        bytes: &[u8],
        precondition: Precondition,
    ) -> (result: Result<PutIf>)
        ensures
            if keys::is_key(object.spec_path()) {
                final(self).client.history() == old(self).client.history().push(
                    (Exchange::PutIf {
                        key: keys::canonical(object.spec_path()),
                        bytes: bytes@,
                        condition: precondition@,
                        reply: result,
                    }),
                )
            } else {
                &&& final(self).client.history() == old(self).client.history()
                &&& result matches Err(error) && keys::refuses_key(error, object.spec_path())
            },
    {
        let key: String = match canonical_object_key(object.path()) {
            Ok(key) => key,
            Err(error) => {
                return Err(error);
            },
        };
        self.client.put_if(key.as_str(), bytes, precondition)
    }
}

/// What an open for reading did and found.
pub open spec fn opened(
    before: Seq<Exchange>,
    after: Seq<Exchange>,
    object: StorageObjectId,
    result: Result<ObjectStoreReadObject>,
) -> bool {
    let from = before.len() as int;
    let key = keys::canonical(object.spec_path());
    if !keys::is_key(object.spec_path()) {
        &&& after == before
        &&& result matches Err(error) && keys::refuses_key(error, object.spec_path())
    } else {
        &&& contract::asked_since(before, after, 1)
        &&& contract::is_head(after[from], key)
        &&& match result {
            Ok(handle) => {
                &&& after[from] matches Exchange::Head { reply: Ok(Some(meta)), .. } && {
                    &&& may_be_read(object.spec_kind(), meta.size as int)
                    &&& handle.len == meta.size
                    &&& handle.etag == meta.etag
                }
                &&& handle.object == object
                &&& handle.key@ == key
            },
            Err(error) => match after[from] {
                Exchange::Head { reply: Ok(Some(meta)), .. } => refuses_size(
                    error,
                    object.spec_kind(),
                    object.spec_path(),
                    meta.size as nat,
                ),
                _ => contract::fails_with(
                    after[from],
                    error,
                    "referenced object "@ + key + " cannot be opened"@,
                ),
            },
        }
    }
}

/// What a ranged read of an open object did and found.
pub open spec fn read_range(
    before: Seq<Exchange>,
    after: Seq<Exchange>,
    handle: ObjectStoreReadObject,
    offset: usize,
    len: usize,
    result: Result<Vec<u8>>,
) -> bool {
    let from = before.len() as int;
    let path = handle.object.spec_path();
    if offset + len > u64::MAX {
        &&& after == before
        &&& result matches Err(error) && error.says(
            ErrorKind::InvalidOptions,
            "object read range overflow"@,
        )
    } else if offset + len > handle.len {
        &&& after == before
        &&& result matches Err(error) && error.says(
            ErrorKind::Corruption,
            "object "@ + path + " short read"@,
        )
    } else if len == 0 {
        &&& after == before
        &&& result matches Ok(bytes) && bytes@.len() == 0
    } else {
        &&& contract::asked_since(before, after, 1)
        &&& after[from] matches Exchange::GetRange {
            key,
            offset: at,
            len: asked,
            etag,
            reply,
        } && {
            &&& key == handle.key@
            &&& at == offset
            &&& asked == len
            &&& etag == handle.etag@
            &&& match result {
                Ok(bytes) => reply == Ok::<Vec<u8>, Error>(bytes) && bytes@.len() == len,
                Err(error) => match reply {
                    Ok(read) => read@.len() != len && error.says(
                        ErrorKind::Corruption,
                        "object "@ + path + " range read returned "@ + text::decimal(read@.len())
                            + " bytes for requested length "@ + text::decimal(len as nat),
                    ),
                    Err(replied) => read_error(path, replied, error),
                },
            }
        }
    }
}

impl ObjectStoreReadObject {
    /// Returns the length of the object.
    pub fn len(&self) -> (len: u64)
        ensures
            len == self.len,
    {
        self.len
    }

    /// Reads exactly `len` bytes at `offset`.
    pub fn read_exact_at<C: ObjectClient>(&self, client: &mut C, offset: usize, len: usize) -> (result:
        Result<Vec<u8>>)
        ensures
            read_range(
                old(client).history(),
                final(client).history(),
                *self,
                offset,
                len,
                result,
            ),
    {
        let end: u64 = match (offset as u64).checked_add(len as u64) {
            Some(end) => end,
            None => {
                return Err(Error::invalid_options("object read range overflow"));
            },
        };
        if end > self.len {
            let message: String = join("object ", self.object.path());
            return Err(Error::Corruption { message: join(message.as_str(), " short read") });
        }
        if len == 0 {
            return Ok(Vec::new());
        }
        let read: Vec<u8> = match client.get_range(
            self.key.as_str(),
            offset as u64,
            len as u64,
            &self.etag,
        ) {
            Ok(read) => read,
            Err(error) => {
                return Err(immutable_object_read_error(&self.object, error));
            },
        };
        if read.len() != len {
            let message: String = join("object ", self.object.path());
            let mut message: String = join(message.as_str(), " range read returned ");
            push_decimal(&mut message, read.len() as u64);
            let mut message: String = join(message.as_str(), " bytes for requested length ");
            push_decimal(&mut message, len as u64);
            return Err(Error::Corruption { message });
        }
        Ok(read)
    }
}

/// What a verified delete did and found.
///
/// An object with a provider version is refused. An object that the metadata shows is deleted.
/// Either way nothing of it may be observed afterwards.
pub open spec fn removed_for_good(
    before: Seq<Exchange>,
    after: Seq<Exchange>,
    path: Seq<char>,
    result: Result<()>,
) -> bool {
    let from = before.len() as int;
    let key = keys::canonical(path);
    if !keys::is_key(path) {
        &&& after == before
        &&& result matches Err(error) && keys::refuses_key(error, path)
    } else {
        &&& contract::asked_since(before, after, 5)
        &&& contract::is_head(after[from], key)
        &&& match after[from] {
            Exchange::Head { reply: Ok(Some(meta)), .. } => if meta.version is Some {
                &&& after.len() == from + 1
                &&& result matches Err(error) && error.says(
                    ErrorKind::UnsupportedBackend,
                    "object-store content key has a provider version"@,
                )
            } else {
                &&& after.len() >= from + 2
                &&& contract::is_delete(after[from + 1], key)
                &&& match contract::reply_error(after[from + 1]) {
                    Some(replied) => after.len() == from + 2 && result == Err::<(), Error>(replied),
                    None => reclamation::found_absent(after.take(from + 2), after, key, result),
                }
            },
            Exchange::Head { reply: Ok(None), .. } => reclamation::found_absent(
                after.take(from + 1),
                after,
                key,
                result,
            ),
            Exchange::Head { reply: Err(replied), .. } => after.len() == from + 1 && result
                == Err::<(), Error>(replied),
            _ => false,
        }
    }
}

impl<C: ObjectClient> ObjectStoreBackend<C> {
    /// Opens an object for ranged reads.
    pub fn open_read(&mut self, object: StorageObjectId) -> (result: Result<ObjectStoreReadObject>)
        ensures
            opened(old(self).client.history(), final(self).client.history(), object, result),
    {
        let key: String = match canonical_object_key(object.path()) {
            Ok(key) => key,
            Err(error) => {
                return Err(error);
            },
        };
        let meta: ObjectMeta = match self.client.head(key.as_str()) {
            Err(error) => {
                return Err(error);
            },
            Ok(None) => {
                let message: String = join("referenced object ", key.as_str());
                return Err(
                    Error::Corruption { message: join(message.as_str(), " cannot be opened") },
                );
            },
            Ok(Some(meta)) => meta,
        };
        if let Err(error) = ensure_object_meta_read_len(&object, &meta) {
            return Err(error);
        }
        Ok(ObjectStoreReadObject { object, key, len: meta.size, etag: meta.etag })
    }

    /// Deletes an unversioned object and requires that nothing of it can be observed.
    pub fn delete_unversioned_object_verified(&mut self, object: &StorageObjectId) -> (result: Result<
        (),
    >)
        ensures
            removed_for_good(
                old(self).client.history(),
                final(self).client.history(),
                object.spec_path(),
                result,
            ),
    {
        let key: String = match canonical_object_key(object.path()) {
            Ok(key) => key,
            Err(error) => {
                return Err(error);
            },
        };
        let ghost from = self.client.history().len() as int;
        match self.client.head(key.as_str()) {
            Err(error) => {
                return Err(error);
            },
            Ok(Some(meta)) => {
                if meta.version.is_some() {
                    return Err(
                        Error::unsupported_backend(
                            "object-store content key has a provider version",
                        ),
                    );
                }
                if let Err(error) = self.client.delete(key.as_str()) {
                    return Err(error);
                }
                assert(self.client.history().len() == from + 2);
            },
            Ok(None) => {
                assert(self.client.history().len() == from + 1);
            },
        }
        let ghost middle = self.client.history();
        let result: Result<()> = verify_object_store_reclamation_absent(
            &mut self.client,
            key.as_str(),
        );
        proof {
            assert(self.client.history().take(middle.len() as int) =~= middle);
            assert(self.client.history()[from] == middle[from]);
        }
        result
    }
}

} // verus!
