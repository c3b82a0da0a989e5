//! The manifest that an open database holds.
use vstd::prelude::*;
use vstd::string::*;

use crate::error::{Error, ErrorKind, Result};
use crate::manifest::decode;
use crate::manifest::decode::decode_manifest;
use crate::manifest::edits;
use crate::manifest::edits::{ManifestEdit, Replacement};
use crate::manifest::encode;
use crate::manifest::encode::encode_manifest_bytes;
use crate::manifest::object;
use crate::manifest::object::{
    reserve_edit, FileIdReservation, ObjectManifest, ObjectManifestStore, PublishOutcome,
    MANIFEST_EDIT_MAX_ATTEMPTS,
};
use crate::manifest::state::{Manifest, ManifestState};
use crate::object_store::{ETag, ObjectClient};
use crate::options::BucketOptions;
use crate::table::{TableId, TableProperties};
use crate::text::join;
use crate::types::Sequence;

verus! {

/// File name of a manifest.
pub const MANIFEST_FILE_NAME: &'static str = "MANIFEST";

/// The path of the manifest of a database.
pub open spec fn manifest_path_of(db_path: Seq<char>) -> Seq<char> {
    if db_path.len() == 0 || db_path.last() == '/' {
        db_path + MANIFEST_FILE_NAME@
    } else {
        db_path + "/"@ + MANIFEST_FILE_NAME@
    }
}

/// Returns the path of the manifest of a database.
pub fn manifest_path(db_path: &str) -> (path: String)
    ensures
        path@ == manifest_path_of(db_path@),
{
    let len: usize = db_path.unicode_len();
    if len == 0 || db_path.get_char(len - 1) == '/' {
        join(db_path, MANIFEST_FILE_NAME)
    } else {
        let root: String = join(db_path, "/");
        join(root.as_str(), MANIFEST_FILE_NAME)
    }
}

/// Where a manifest is published.
#[derive(Debug)]
pub enum ManifestBackend {
    /// In a file, which the host replaces atomically.
    Native,
    /// In an object store.
    ObjectStore(ObjectManifestStore),
}

/// The manifest that an open database holds.
///
/// Publishing is the durable cutover. The state in memory stays as it is until the host
/// reports that the new manifest is in place, so that a failed publish cannot make later
/// operations believe in an edit that was never committed.
#[derive(Debug)]
pub struct ManifestStore {
    path: String,
    state: ManifestState,
    backend: ManifestBackend,
}

/// A new manifest that waits to be published.
#[derive(Debug)]
pub struct PreparedManifestPublish {
    /// Where it is to be published.
    pub path: String,
    /// Its bytes.
    pub bytes: Vec<u8>,
    /// The state it was made from.
    pub base_state: ManifestState,
    /// The state it records.
    pub next_state: ManifestState,
}

/// A range of file identifiers that waits for its counter to be published.
#[derive(Debug)]
pub struct PreparedReservation {
    publish: Option<PreparedManifestPublish>,
    range: FileIdReservation,
}

impl PreparedReservation {
    /// The range that is reserved once the manifest is published.
    pub closed spec fn range(&self) -> FileIdReservation {
        self.range
    }

    /// The manifest that is to be published.
    pub closed spec fn awaited(&self) -> Option<PreparedManifestPublish> {
        self.publish
    }

    /// Returns the manifest to publish, or `None` where no identifier is reserved.
    pub fn publish(&self) -> (publish: Option<&PreparedManifestPublish>)
        ensures
            match publish {
                Some(publish) => self.awaited() == Some(*publish),
                None => self.awaited() is None,
            },
    {
        match &self.publish {
            Some(publish) => Some(publish),
            None => None,
        }
    }
}

impl PreparedManifestPublish {
    /// Whether this is the publish that takes one state to another.
    pub open spec fn takes(&self, path: Seq<char>, base: Manifest, next: Manifest) -> bool {
        &&& self.path@ == path
        &&& self.base_state.wf() && self.base_state@ == base
        &&& self.next_state.wf() && self.next_state@ == next
        &&& encode::can_be_published(next)
        &&& self.bytes@ == encode::framed(encode::payload_of(next))
    }
}

impl ManifestStore {
    /// The path of the manifest.
    pub closed spec fn spec_path(&self) -> Seq<char> {
        self.path@
    }

    /// The current state.
    pub closed spec fn current(&self) -> ManifestState {
        self.state
    }

    /// Where the manifest is published.
    pub closed spec fn spec_backend(&self) -> ManifestBackend {
        self.backend
    }

    /// The object manifest of a store over an object store.
    pub open spec fn object(&self) -> ObjectManifestStore {
        self.spec_backend()->ObjectStore_0
    }

    /// Whether the state is sorted, and an object manifest agrees with it.
    pub open spec fn wf(&self) -> bool {
        &&& self.current().wf()
        &&& self.spec_backend() matches ManifestBackend::ObjectStore(object) ==> object.wf()
            && object.state@ == self.current()@
    }

    /// What preparing an edit gives.
    ///
    /// An edit that fails, or has nothing to do, is not published. Otherwise the new manifest
    /// waits to be published in its file; an object store takes edits in another way.
    pub open spec fn prepared(
        &self,
        edit: ManifestEdit,
        result: Result<Option<PreparedManifestPublish>>,
    ) -> bool {
        exists|next: Result<Option<ManifestState>>| #[trigger]
            edits::edited(edit, self.current()@, next) && match next {
                Err(failed) => result matches Err(error) && error == failed,
                Ok(None) => result matches Ok(None),
                Ok(Some(state)) => if self.spec_backend() is ObjectStore {
                    result matches Err(error) && error.says(
                        ErrorKind::UnsupportedBackend,
                        "object-store manifest publish requires async API"@,
                    )
                } else {
                    match result {
                        Ok(Some(publish)) => publish.takes(
                            self.spec_path(),
                            self.current()@,
                            state@,
                        ),
                        Ok(None) => false,
                        Err(error) => !encode::can_be_published(state@) && encode::reports(
                            error,
                            encode::publish_fault(state@),
                        ),
                    }
                },
            }
    }

    /// Opens the manifest that was found in a file, or an empty one.
    ///
    /// Where the file is missing and is to be created, the empty manifest waits to be
    /// published.
    pub fn open_or_create(path: &str, create_if_missing: bool, found: Option<Vec<u8>>) -> (result:
        Result<(ManifestStore, Option<PreparedManifestPublish>)>)
        ensures
            match result {
                Ok((store, publish)) => {
                    &&& store.wf()
                    &&& store.spec_path() == path@
                    &&& store.spec_backend() is Native
                    &&& match found {
                        Some(bytes) => object::is_manifest(bytes@, store.current()@) && publish
                            is None,
                        None => {
                            &&& store.current()@ == object::no_manifest()
                            &&& match publish {
                                Some(publish) => create_if_missing && publish.takes(
                                    path@,
                                    object::no_manifest(),
                                    object::no_manifest(),
                                ),
                                None => !create_if_missing,
                            }
                        },
                    }
                },
                Err(error) => match found {
                    Some(bytes) => decode::unreadable(bytes@, error) && forall|manifest: Manifest|
                        !#[trigger] object::is_manifest(bytes@, manifest),
                    None => false,
                },
            },
    {
        match found {
            Some(bytes) => match decode_manifest(bytes.as_slice()) {
                Ok(state) => Ok(
                    (
                        ManifestStore {
                            path: path.to_owned(),
                            state,
                            backend: ManifestBackend::Native,
                        },
                        None,
                    ),
                ),
                Err(error) => Err(error),
            },
            None => {
                let store = ManifestStore {
                    path: path.to_owned(),
                    state: ManifestState::empty(),
                    backend: ManifestBackend::Native,
                };
                if !create_if_missing {
                    return Ok((store, None));
                }
                proof {
                    object::no_manifest_can_be_published();
                }
                match store.publish_of(ManifestState::empty()) {
                    Ok(publish) => Ok((store, Some(publish))),
                    Err(error) => Err(error),
                }
            },
        }
    }

    /// Opens a manifest in an object store, to be published under an epoch.
    pub fn open_object_store<C: ObjectClient>(client: &mut C, key: &str, writer_epoch: u64) -> (result:
        Result<ManifestStore>)
        ensures
            exists|read: Result<(ManifestState, Option<ETag>)>| #[trigger]
                object::current_read(old(client).history(), final(client).history(), key@, read)
                    && match result {
                    Ok(store) => {
                        &&& store.wf()
                        &&& store.spec_backend() is ObjectStore
                        &&& read matches Ok((state, etag)) && store.object()@ == (
                        object::ObjectManifest {
                            key: key@,
                            etag: object::tag_of(etag),
                            state: state@,
                            writer_epoch,
                        })
                    },
                    Err(error) => read matches Err(failed) && error == failed,
                },
    {
        match ObjectManifestStore::open(client, key, writer_epoch) {
            Ok(object) => Ok(
                ManifestStore {
                    path: String::new(),
                    state: object.state.clone(),
                    backend: ManifestBackend::ObjectStore(object),
                },
            ),
            Err(error) => Err(error),
        }
    }

    /// Returns the current state.
    pub fn state(&self) -> (state: &ManifestState)
        ensures
            *state == self.current(),
    {
        &self.state
    }

    /// Returns the commit of a checkpoint.
    pub fn checkpoint_sequence(&self, name: &str) -> (sequence: Option<Sequence>)
        requires
            self.wf(),
        ensures
            match sequence {
                Some(sequence) => self.current().checkpoints.map().dom().contains(name@)
                    && sequence == self.current().checkpoints.map()[name@],
                None => !self.current().checkpoints.map().dom().contains(name@),
            },
    {
        match self.state.checkpoints.get(name) {
            Some(sequence) => Some(*sequence),
            None => None,
        }
    }

    /// Returns the identifier that the next table would get.
    pub fn next_table_id(&self) -> (result: Result<TableId>)
        ensures
            match result {
                Ok(id) => self.current()@.files_reserved() && id.0 == self.current().next_file_id,
                Err(error) => self.current()@.file_id_fault() matches Some(text) && error.says(
                    ErrorKind::Corruption,
                    text,
                ),
            },
    {
        self.state.next_table_id()
    }

    /// Makes the publish of a new state.
    fn publish_of(&self, next: ManifestState) -> (result: Result<PreparedManifestPublish>)
        requires
            self.wf(),
            next.wf(),
        ensures
            match result {
                Ok(publish) => publish.takes(self.spec_path(), self.current()@, next@),
                Err(error) => !encode::can_be_published(next@) && encode::reports(
                    error,
                    encode::publish_fault(next@),
                ),
            },
    {
        match encode_manifest_bytes(&next) {
            Ok(bytes) => Ok(
                PreparedManifestPublish {
                    path: self.path.clone(),
                    bytes,
                    base_state: self.state.clone(),
                    next_state: next,
                },
            ),
            Err(error) => Err(error),
        }
    }

    fn is_object_store(&self) -> (object: bool)
        ensures
            object == (self.spec_backend() is ObjectStore),
    {
        match &self.backend {
            ManifestBackend::Native => false,
            ManifestBackend::ObjectStore(_) => true,
        }
    }

    /// Prepares an edit to be published.
    pub fn prepare(&self, edit: &ManifestEdit) -> (result: Result<Option<PreparedManifestPublish>>)
        requires
            self.wf(),
        ensures
            self.prepared(*edit, result),
    {
        let next: Result<Option<ManifestState>> = edit.apply(&self.state);
        assert(edits::edited(*edit, self.current()@, next));
        match next {
            Err(error) => Err(error),
            Ok(None) => Ok(None),
            Ok(Some(next)) => {
                if self.is_object_store() {
                    return Err(
                        Error::unsupported_backend(
                            "object-store manifest publish requires async API",
                        ),
                    );
                }
                match self.publish_of(next) {
                    Ok(publish) => Ok(Some(publish)),
                    Err(error) => Err(error),
                }
            },
        }
    }

    /// Prepares the creation of a bucket.
    pub fn create_bucket(&self, name: String, options: BucketOptions) -> (result: Result<
        Option<PreparedManifestPublish>,
    >)
        requires
            self.wf(),
        ensures
            self.prepared((ManifestEdit::CreateBucket { name, options }), result),
    {
        self.prepare(&ManifestEdit::CreateBucket { name, options })
    }

    /// Prepares the removal of a bucket with its table list. Its blob files become deletable.
    pub fn drop_bucket(&self, name: String, pending: Vec<u64>, sequence: Sequence) -> (result: Result<
        Option<PreparedManifestPublish>,
    >)
        requires
            self.wf(),
        ensures
            self.prepared((ManifestEdit::DropBucket { name, pending, sequence }), result),
    {
        self.prepare(&ManifestEdit::DropBucket { name, pending, sequence })
    }

    /// Prepares a checkpoint.
    pub fn create_checkpoint(&self, name: String, sequence: Sequence) -> (result: Result<
        Option<PreparedManifestPublish>,
    >)
        requires
            self.wf(),
        ensures
            self.prepared((ManifestEdit::CreateCheckpoint { name, sequence }), result),
    {
        self.prepare(&ManifestEdit::CreateCheckpoint { name, sequence })
    }

    /// Prepares the removal of a checkpoint.
    pub fn delete_checkpoint(&self, name: String) -> (result: Result<
        Option<PreparedManifestPublish>,
    >)
        requires
            self.wf(),
        ensures
            self.prepared((ManifestEdit::DeleteCheckpoint { name }), result),
    {
        self.prepare(&ManifestEdit::DeleteCheckpoint { name })
    }

    /// Prepares the addition of flushed tables.
    pub fn add_tables(
        &self,
        tables: Vec<(String, TableProperties)>,
        wal_replay_floor: Sequence,
    ) -> (result: Result<Option<PreparedManifestPublish>>)
        requires
            self.wf(),
        ensures
            self.prepared((ManifestEdit::PushTables { tables, wal_replay_floor }), result),
    {
        self.prepare(&ManifestEdit::PushTables { tables, wal_replay_floor })
    }

    /// Prepares the replacement of compacted tables. The whole batch is tested before anything
    /// is changed.
    pub fn replace_tables_batch_and_mark_blob_deletions(
        &self,
        replacements: Vec<Replacement>,
        pending: Vec<u64>,
        sequence: Sequence,
    ) -> (result: Result<Option<PreparedManifestPublish>>)
        requires
            self.wf(),
        ensures
            self.prepared((ManifestEdit::ReplaceTables { replacements, pending, sequence }), result),
    {
        self.prepare(&ManifestEdit::ReplaceTables { replacements, pending, sequence })
    }

    /// Prepares the removal of deletable blob files.
    pub fn clear_pending_blob_deletions(&self, ids: Vec<u64>) -> (result: Result<
        Option<PreparedManifestPublish>,
    >)
        requires
            self.wf(),
        ensures
            self.prepared((ManifestEdit::ClearPending { ids }), result),
    {
        self.prepare(&ManifestEdit::ClearPending { ids })
    }

    /// Prepares the reservation of file identifiers.
    pub fn reserve_file_ids(&self, count: usize) -> (result: Result<PreparedReservation>)
        requires
            self.wf(),
        ensures
            exists|next: Result<(ManifestState, FileIdReservation)>| #[trigger]
                object::reserve_edited(self.current()@, count as u64, next) && match next {
                    Err(failed) => result matches Err(error) && error == failed,
                    Ok((state, range)) => match result {
                        Ok(reservation) => {
                            &&& reservation.range() == range
                            &&& match reservation.awaited() {
                                None => count == 0,
                                Some(publish) => count > 0 && !(self.spec_backend() is ObjectStore)
                                    && publish.takes(
                                    self.spec_path(),
                                    self.current()@,
                                    state@,
                                ),
                            }
                        },
                        Err(error) => count > 0 && if self.spec_backend() is ObjectStore {
                            error.says(
                                ErrorKind::UnsupportedBackend,
                                "object-store manifest publish requires async API"@,
                            )
                        } else {
                            !encode::can_be_published(state@) && encode::reports(
                                error,
                                encode::publish_fault(state@),
                            )
                        },
                    },
                },
    {
        let next: Result<(ManifestState, FileIdReservation)> = reserve_edit(
            &self.state,
            count as u64,
        );
        assert(object::reserve_edited(self.current()@, count as u64, next));
        match next {
            Err(error) => Err(error),
            Ok((state, range)) => {
                if count == 0 {
                    return Ok(PreparedReservation { publish: None, range });
                }
                if self.is_object_store() {
                    return Err(
                        Error::unsupported_backend(
                            "object-store manifest publish requires async API",
                        ),
                    );
                }
                match self.publish_of(state) {
                    Ok(publish) => Ok(PreparedReservation { publish: Some(publish), range }),
                    Err(error) => Err(error),
                }
            },
        }
    }

    /// What the host's report on a publish leads to.
    ///
    /// The state follows the manifest that is in place: it advances when the new manifest is
    /// published, whether or not it is known to be durable, and stays otherwise.
    pub open spec fn finished(
        &self,
        publish: PreparedManifestPublish,
        outcome: Result<PublishOutcome>,
        result: Result<()>,
        after: ManifestStore,
    ) -> bool {
        let stale = self.current()@ != publish.base_state@;
        let in_place = outcome matches Ok(reported) && !(reported is Conflict);
        &&& after.wf()
        &&& after.spec_path() == self.spec_path()
        &&& after.spec_backend() == self.spec_backend()
        &&& after.current()@ == if in_place && !stale {
            publish.next_state@
        } else {
            self.current()@
        }
        &&& match outcome {
            Err(failed) => result matches Err(error) && error == failed,
            Ok(reported) => if in_place && stale {
                result matches Err(error) && error.says(
                    ErrorKind::Corruption,
                    "manifest changed while async publish was pending"@,
                )
            } else {
                reported.settles(result)
            },
        }
    }

    /// Takes note of what came of a publish.
    pub fn finish_publish(
        &mut self,
        publish: PreparedManifestPublish,
        outcome: Result<PublishOutcome>,
    ) -> (result: Result<()>)
        requires
            old(self).wf(),
            old(self).spec_backend() is Native,
            publish.next_state.wf(),
        ensures
            old(self).finished(publish, outcome, result, *final(self)),
    {
        let reported: PublishOutcome = match outcome {
            Ok(reported) => reported,
            Err(error) => {
                return Err(error);
            },
        };
        let in_place: bool = match &reported {
            PublishOutcome::Conflict { .. } => false,
            _ => true,
        };
        if in_place {
            if !self.state.same(&publish.base_state) {
                return Err(Error::corruption("manifest changed while async publish was pending"));
            }
            self.state = publish.next_state;
        }
        reported.published_or_err()
    }

    /// Takes note of what came of the publish of a reservation, and hands out its range when
    /// the counter is published.
    pub fn finish_reservation(
        &mut self,
        reservation: PreparedReservation,
        outcome: Result<PublishOutcome>,
    ) -> (result: Result<FileIdReservation>)
        requires
            old(self).wf(),
            reservation.awaited() matches Some(publish) ==> old(self).spec_backend() is Native
                && publish.next_state.wf(),
        ensures
            match reservation.awaited() {
                None => {
                    &&& *final(self) == *old(self)
                    &&& result matches Ok(range) && range == reservation.range()
                },
                Some(publish) => exists|finished: Result<()>| #[trigger]
                    old(self).finished(publish, outcome, finished, *final(self))
                        && match finished {
                        Ok(()) => result matches Ok(range) && range == reservation.range(),
                        Err(failed) => result matches Err(error) && error == failed,
                    },
            },
    {
        match reservation.publish {
            None => Ok(reservation.range),
            Some(publish) => {
                let finished: Result<()> = self.finish_publish(publish, outcome);
                assert(old(self).finished(publish, outcome, finished, *self));
                match finished {
                    Ok(()) => Ok(reservation.range),
                    Err(error) => Err(error),
                }
            },
        }
    }

    /// Makes an edit and publishes it in an object store, anew on each state that wins a race.
    ///
    /// It gives up only when the count of lost races no longer fits a `u64`.
    pub fn commit_edit_in<C: ObjectClient>(&mut self, client: &mut C, edit: &ManifestEdit) -> (result:
        Result<()>)
        requires
            old(self).wf(),
        ensures
            final(self).wf(),
            final(self).spec_path() == old(self).spec_path(),
            match old(self).spec_backend() {
                ManifestBackend::Native => {
                    &&& *final(self) == *old(self)
                    &&& final(client).history() == old(client).history()
                    &&& result matches Err(error) && error.says(
                        ErrorKind::UnsupportedBackend,
                        "manifest backend is not object storage"@,
                    )
                },
                ManifestBackend::ObjectStore(object) => {
                    &&& final(self).spec_backend() is ObjectStore
                    &&& object::committed(
                        old(client).history(),
                        final(client).history(),
                        object@,
                        *edit,
                        u64::MAX as nat,
                        result,
                        final(self).object()@,
                    )
                },
            },
    {
        match &mut self.backend {
            ManifestBackend::Native => Err(
                Error::unsupported_backend("manifest backend is not object storage"),
            ),
            ManifestBackend::ObjectStore(object) => {
                let result: Result<()> = object.commit_edit_within(client, edit, u64::MAX);
                self.state = object.state.clone();
                result
            },
        }
    }

    /// Returns a copy of the object manifest, so that a caller can publish through it on its own
    /// and install it afterwards.
    pub fn clone_object_manifest(&self) -> (result: Result<ObjectManifestStore>)
        requires
            self.wf(),
        ensures
            match self.spec_backend() {
                ManifestBackend::Native => result matches Err(error) && error.says(
                    ErrorKind::UnsupportedBackend,
                    "manifest backend is not object storage"@,
                ),
                ManifestBackend::ObjectStore(own) => result matches Ok(object) && object.wf()
                    && object@ == own@,
            },
    {
        match &self.backend {
            ManifestBackend::Native => Err(
                Error::unsupported_backend("manifest backend is not object storage"),
            ),
            ManifestBackend::ObjectStore(object) => Ok(object.clone()),
        }
    }

    /// Puts an object manifest back after a publish through it, and takes over its state.
    pub fn install_object_manifest(&mut self, object: ObjectManifestStore) -> (result: Result<()>)
        requires
            old(self).wf(),
            object.wf(),
        ensures
            final(self).wf(),
            final(self).spec_path() == old(self).spec_path(),
            match old(self).spec_backend() {
                ManifestBackend::Native => {
                    &&& *final(self) == *old(self)
                    &&& result matches Err(error) && error.says(
                        ErrorKind::UnsupportedBackend,
                        "manifest backend is not object storage"@,
                    )
                },
                ManifestBackend::ObjectStore(_) => {
                    &&& result is Ok
                    &&& final(self).spec_backend() == ManifestBackend::ObjectStore(object)
                },
            },
    {
        match &self.backend {
            ManifestBackend::Native => Err(
                Error::unsupported_backend("manifest backend is not object storage"),
            ),
            ManifestBackend::ObjectStore(_) => {
                self.state = object.state.clone();
                self.backend = ManifestBackend::ObjectStore(object);
                Ok(())
            },
        }
    }

    /// Publishes the state in an object store, so that the epoch of this writer takes effect
    /// at once. Where that fails, the store stays as it was.
    pub fn claim_object_epoch<C: ObjectClient>(&mut self, client: &mut C) -> (result: Result<()>)
        requires
            old(self).wf(),
        ensures
            final(self).wf(),
            result is Err ==> *final(self) == *old(self),
            match old(self).spec_backend() {
                ManifestBackend::Native => {
                    &&& final(client).history() == old(client).history()
                    &&& result matches Err(error) && error.says(
                        ErrorKind::UnsupportedBackend,
                        "manifest backend is not object storage"@,
                    )
                },
                ManifestBackend::ObjectStore(object) => exists|now: ObjectManifest| #[trigger]
                    object::committed(
                        old(client).history(),
                        final(client).history(),
                        object@,
                        ManifestEdit::ClaimEpoch,
                        MANIFEST_EDIT_MAX_ATTEMPTS as nat,
                        result,
                        now,
                    ) && (result is Ok ==> {
                        &&& final(self).spec_backend() is ObjectStore
                        &&& final(self).object()@ == now
                        &&& final(self).spec_path() == old(self).spec_path()
                    }),
            },
    {
        let mut object: ObjectManifestStore = match self.clone_object_manifest() {
            Ok(object) => object,
            Err(error) => {
                return Err(error);
            },
        };
        let ghost writer = object@;
        let result: Result<()> = object.claim_writer_epoch(client);
        let ghost now = object@;
        proof {
            assert(object::committed(
                old(client).history(),
                client.history(),
                writer,
                ManifestEdit::ClaimEpoch,
                MANIFEST_EDIT_MAX_ATTEMPTS as nat,
                result,
                now,
            ));
        }
        if result.is_err() {
            return result;
        }
        match self.install_object_manifest(object) {
            Ok(()) => result,
            Err(error) => Err(error),
        }
    }
}

/// An edit becomes the current state when its publish succeeds, and leaves the current state
/// alone when its publish fails or loses a race.
pub proof fn published_edit_becomes_current(
    store: ManifestStore,
    edit: ManifestEdit,
    publish: PreparedManifestPublish,
    outcome: Result<PublishOutcome>,
    result: Result<()>,
    after: ManifestStore,
)
    requires
        store.prepared(edit, Ok(Some(publish))),
        store.finished(publish, outcome, result, after),
    ensures
        result is Ok ==> after.current()@ == publish.next_state@,
        outcome is Err || outcome->Ok_0 is Conflict ==> after.current()@ == store.current()@,
        exists|next: ManifestState| #[trigger]
            edits::edited(edit, store.current()@, Ok(Some(next))) && next@ == publish.next_state@,
{
    let next = choose|next: Result<Option<ManifestState>>| #[trigger]
        edits::edited(edit, store.current()@, next) && match next {
            Err(failed) => false,
            Ok(None) => false,
            Ok(Some(state)) => publish.takes(store.spec_path(), store.current()@, state@),
        };
    assert(edits::edited(edit, store.current()@, Ok(Some(next->Ok_0->0))));
}

/// A publish that ends after the state has changed is not taken over, and is never reported as a
/// success. One whose durability is unknown is taken over, and its error is reported.
pub proof fn late_publish_is_not_taken_over(
    store: ManifestStore,
    publish: PreparedManifestPublish,
    outcome: Result<PublishOutcome>,
    result: Result<()>,
    after: ManifestStore,
)
    requires
        store.finished(publish, outcome, result, after),
    ensures
        store.current()@ != publish.base_state@ ==> after.current()@ == store.current()@ && result
            is Err,
        result is Ok ==> outcome matches Ok(PublishOutcome::Published),
        outcome matches Ok(PublishOutcome::Published) ==> (result is Ok <==> store.current()@
            == publish.base_state@),
        outcome matches Ok(PublishOutcome::PublishedDurabilityUnknown { .. }) ==> result is Err && (
        store.current()@ == publish.base_state@ ==> after.current()@ == publish.next_state@),
        outcome matches Ok(PublishOutcome::Conflict { .. }) ==> result is Err,
        after.spec_path() == store.spec_path(),
        after.spec_backend() == store.spec_backend(),
{
}

/// The manifest of a database lies directly in its directory, however the directory is spelled.
pub proof fn manifest_lies_in_the_database(db_path: Seq<char>)
    ensures
        db_path.len() > 0 && db_path.last() != '/' ==> manifest_path_of(db_path)
            == manifest_path_of(db_path.push('/')),
        manifest_path_of(db_path).take(db_path.len() as int) == db_path,
        db_path.len() > 0 && db_path.last() == '/' ==> manifest_path_of(db_path) == db_path
            + "MANIFEST"@,
        db_path.len() == 0 ==> manifest_path_of(db_path) == "MANIFEST"@,
{
    reveal_strlit("/");
    assert("/"@ =~= seq!['/']);
    assert(db_path + "/"@ =~= db_path.push('/'));
    assert(manifest_path_of(db_path).take(db_path.len() as int) =~= db_path);
    if db_path.len() == 0 {
        assert(db_path + MANIFEST_FILE_NAME@ =~= MANIFEST_FILE_NAME@);
    }
}

} // verus!
