//! Publishing of a manifest by compare-and-swap over an object store.
use vstd::prelude::*;

use crate::error::{Error, ErrorKind, Result};
use crate::limits;
use crate::manifest::decode;
use crate::manifest::decode::decode_manifest;
use crate::manifest::edits;
use crate::manifest::edits::{ManifestEdit, Replacement};
use crate::manifest::encode;
use crate::manifest::encode::encode_manifest_bytes;
use crate::manifest::state;
use crate::manifest::state::{Manifest, ManifestState};
use crate::object_store::contract;
use crate::object_store::memory;
use crate::object_store::memory::Stored;
use crate::object_store::model;
use crate::object_store::{Condition, ETag, Exchange, ObjectClient, ObjectMeta, Precondition, PutIf};
use crate::options::BucketOptions;
use crate::table::{TableId, TableProperties};
use crate::text;
use crate::text::{join, push_decimal};
use crate::types::Sequence;

verus! {

/// How often an edit is tried against manifests that others publish at the same time.
pub const MANIFEST_EDIT_MAX_ATTEMPTS: usize = 32;

/// Most bytes of a manifest object.
pub const MAX_MANIFEST_OBJECT_BYTES: usize = limits::MAX_MANIFEST_PAYLOAD_BYTES
    + encode::HEADER_LEN;

/// Outcome of publishing a new manifest.
#[derive(Debug)]
pub enum PublishOutcome {
    /// The new state is the durable manifest.
    Published,
    /// The new manifest is in place, but whether it is durable is not known.
    PublishedDurabilityUnknown {
        /// Why that is not known.
        error: Error,
    },
    /// Another writer published first.
    Conflict {
        /// The manifest that won.
        current: ManifestState,
    },
}

impl PublishOutcome {
    /// Whether the outcome counts as success, and the error it counts as otherwise.
    pub open spec fn settles(self, result: Result<()>) -> bool {
        match self {
            PublishOutcome::Published => result is Ok,
            PublishOutcome::PublishedDurabilityUnknown { error } => result == Err::<(), Error>(
                error,
            ),
            PublishOutcome::Conflict { .. } => result matches Err(error) && error.says(
                ErrorKind::Conflict,
                "manifest publish lost a concurrent CAS race"@,
            ),
        }
    }

    /// Turns a lost race into an error.
    pub fn published_or_err(self) -> (result: Result<()>)
        ensures
            self.settles(result),
    {
        match self {
            PublishOutcome::Published => Ok(()),
            PublishOutcome::PublishedDurabilityUnknown { error } => Err(error),
            PublishOutcome::Conflict { .. } => Err(
                Error::Conflict {
                    message: "manifest publish lost a concurrent CAS race".to_owned(),
                },
            ),
        }
    }
}

/// Whether bytes are those of a manifest.
pub open spec fn is_manifest(bytes: Seq<u8>, manifest: Manifest) -> bool {
    &&& decode::readable(manifest)
    &&& encode::can_be_published(manifest)
    &&& bytes == encode::framed(encode::payload_of(manifest))
}

/// The manifest of a database that has none yet.
pub open spec fn no_manifest() -> Manifest {
    Manifest {
        wal_replay_floor: Sequence(0),
        buckets: Seq::empty(),
        bucket_generations: Seq::empty(),
        tables: Seq::empty(),
        pending_blob_deletions: Seq::empty(),
        checkpoints: Seq::empty(),
        next_file_id: 1,
        next_bucket_generation: 1,
        writer_epoch: 0,
    }
}

/// A database without buckets has a manifest that can be published.
pub proof fn no_manifest_can_be_published()
    ensures
        encode::can_be_published(no_manifest()),
{
    let manifest = no_manifest();
    vstd::bytes::lemma_auto_spec_u32_to_from_le_bytes();
    vstd::bytes::lemma_auto_spec_u64_to_from_le_bytes();
    assert(encode::payload_counters(manifest).len() == 24);
    assert(encode::payload_checkpoints(manifest).len() == 28);
    assert(encode::payload_pending(manifest).len() == 32);
    assert(encode::payload_tables(manifest).len() == 36);
    assert(encode::payload_of(manifest).len() == 48);
    assert(state::names_of(manifest.bucket_generations) =~= state::names_of(manifest.buckets));
    assert(state::names_of(manifest.tables) =~= state::names_of(manifest.buckets));
}

/// What a read of the current manifest did and found.
pub open spec fn current_read(
    before: Seq<Exchange>,
    after: Seq<Exchange>,
    key: Seq<char>,
    result: Result<(ManifestState, Option<ETag>)>,
) -> bool {
    let from = before.len() as int;
    &&& contract::asked_since(before, after, 2)
    &&& contract::is_head(after[from], key)
    &&& after[from] matches Exchange::Head { reply, .. } && match reply {
        Err(replied) => after.len() == from + 1 && (result matches Err(error) && error == replied),
        Ok(None) => after.len() == from + 1 && (result matches Ok((state, etag)) && state@
            == no_manifest() && etag is None),
        Ok(Some(meta)) => if meta.size > MAX_MANIFEST_OBJECT_BYTES {
            &&& after.len() == from + 1
            &&& result matches Err(error) && error.says(
                ErrorKind::Corruption,
                "manifest object "@ + key + " length "@ + text::decimal(meta.size as nat)
                    + " exceeds maximum "@ + text::decimal(MAX_MANIFEST_OBJECT_BYTES as nat),
            )
        } else {
            &&& after.len() == from + 2
            &&& contract::is_get(after[from + 1], key)
            &&& after[from + 1] matches Exchange::Get { reply: read, .. } && match read {
                Err(replied) => result matches Err(error) && error == replied,
                Ok(None) => result matches Err(error) && error.says(
                    ErrorKind::Corruption,
                    "manifest object "@ + key + " vanished between head and get"@,
                ),
                Ok(Some(bytes)) => match result {
                    Ok((state, etag)) => {
                        &&& is_manifest(bytes@, state@)
                        &&& etag == Some(meta.etag)
                    },
                    Err(error) => if bytes@.len() > MAX_MANIFEST_OBJECT_BYTES {
                        error.says(
                            ErrorKind::Corruption,
                            limits::exceeds_text(
                                "manifest object length"@,
                                bytes@.len(),
                                MAX_MANIFEST_OBJECT_BYTES as nat,
                            ),
                        )
                    } else {
                        &&& decode::unreadable(bytes@, error)
                        &&& forall|manifest: Manifest| !#[trigger] is_manifest(bytes@, manifest)
                    },
                },
            }
        },
    }
}

/// Reads the current manifest object, if there is one, and its `ETag`.
pub fn read_current<C: ObjectClient>(client: &mut C, key: &str) -> (result: Result<
    (ManifestState, Option<ETag>),
>)
    ensures
        current_read(old(client).history(), final(client).history(), key@, result),
        result matches Ok((state, _)) ==> state.wf(),
{
    let meta: ObjectMeta = match client.head(key) {
        Err(error) => {
            return Err(error);
        },
        Ok(None) => {
            return Ok((ManifestState::empty(), None));
        },
        Ok(Some(meta)) => meta,
    };
    if meta.size > MAX_MANIFEST_OBJECT_BYTES as u64 {
        let message: String = join("manifest object ", key);
        let mut message: String = join(message.as_str(), " length ");
        push_decimal(&mut message, meta.size);
        let mut message: String = join(message.as_str(), " exceeds maximum ");
        push_decimal(&mut message, MAX_MANIFEST_OBJECT_BYTES as u64);
        return Err(Error::Corruption { message });
    }
    let bytes: Vec<u8> = match client.get(key) {
        Err(error) => {
            return Err(error);
        },
        Ok(None) => {
            let message: String = join("manifest object ", key);
            return Err(
                Error::Corruption {
                    message: join(message.as_str(), " vanished between head and get"),
                },
            );
        },
        Ok(Some(bytes)) => bytes,
    };
    if let Err(error) = limits::ensure_corruption_len(
        bytes.len(),
        MAX_MANIFEST_OBJECT_BYTES,
        "manifest object length",
    ) {
        return Err(error);
    }
    match decode_manifest(bytes.as_slice()) {
        Ok(state) => Ok((state, Some(meta.etag))),
        Err(error) => Err(error),
    }
}

/// A manifest that is published by conditional writes.
///
/// Losing a race means that another writer published first: the state and `ETag` are then
/// read again, so that the edit can be made anew on the state that won.
#[derive(Debug)]
pub struct ObjectManifestStore {
    /// Key of the manifest object.
    pub key: String,
    /// `ETag` of the manifest object that was read or written last.
    pub etag: Option<ETag>,
    /// The state that was read or written last.
    pub state: ManifestState,
    /// Fencing epoch of this writer.
    pub writer_epoch: u64,
}

impl Clone for ObjectManifestStore {
    fn clone(&self) -> (copy: ObjectManifestStore)
        ensures
            copy@ == self@,
            copy.wf() == self.wf(),
    {
        ObjectManifestStore {
            key: self.key.clone(),
            etag: match &self.etag {
                Some(etag) => Some(etag.clone()),
                None => None,
            },
            state: self.state.clone(),
            writer_epoch: self.writer_epoch,
        }
    }
}

/// Mathematical form of an [`ObjectManifestStore`].
#[verifier::ext_equal]
pub struct ObjectManifest {
    /// See [`ObjectManifestStore`].
    pub key: Seq<char>,
    /// See [`ObjectManifestStore`].
    pub etag: Option<Seq<char>>,
    /// See [`ObjectManifestStore`].
    pub state: Manifest,
    /// See [`ObjectManifestStore`].
    pub writer_epoch: u64,
}

/// The text of an optional tag.
pub open spec fn tag_of(etag: Option<ETag>) -> Option<Seq<char>> {
    match etag {
        Some(etag) => Some(etag@),
        None => None,
    }
}

impl View for ObjectManifestStore {
    type V = ObjectManifest;

    open spec fn view(&self) -> ObjectManifest {
        ObjectManifest {
            key: self.key@,
            etag: tag_of(self.etag),
            state: self.state@,
            writer_epoch: self.writer_epoch,
        }
    }
}

impl ObjectManifest {
    /// The condition under which this writer may publish.
    pub open spec fn condition(self) -> Condition {
        match self.etag {
            Some(etag) => Condition::Tagged(etag),
            None => Condition::Absent,
        }
    }

    /// A state under the epoch of this writer.
    pub open spec fn stamped(self, next: Manifest) -> Manifest {
        Manifest { writer_epoch: self.writer_epoch, ..next }
    }

    /// This writer with another state.
    pub open spec fn with_state(self, state: Manifest, etag: Option<Seq<char>>) -> ObjectManifest {
        ObjectManifest { state, etag, ..self }
    }
}

/// What one try to publish did and found.
///
/// A writer that is fenced asks nothing. Otherwise the new state, under the epoch of the
/// writer, is written if the manifest is still the one that was seen last. A lost race leads to
/// the state that won. A reply that is lost is reconciled with what is stored.
pub open spec fn publish_tried(
    before: Seq<Exchange>,
    after: Seq<Exchange>,
    writer: ObjectManifest,
    next: Manifest,
    result: Result<PublishOutcome>,
    now: ObjectManifest,
) -> bool {
    let from = before.len() as int;
    let stamped = writer.stamped(next);
    if writer.state.writer_epoch > writer.writer_epoch {
        &&& after == before
        &&& now == writer
        &&& result matches Err(error) && error == (Error::Fenced {
            held_epoch: writer.writer_epoch,
            current_epoch: writer.state.writer_epoch,
        })
    } else if !encode::can_be_published(stamped) {
        &&& after == before
        &&& now == writer
        &&& result matches Err(error) && encode::reports(error, encode::publish_fault(stamped))
    } else {
        &&& contract::asked_since(before, after, 3)
        &&& contract::is_put_if(
            after[from],
            writer.key,
            encode::framed(encode::payload_of(stamped)),
            writer.condition(),
        )
        &&& after[from] matches Exchange::PutIf { reply, .. } && match reply {
            Ok(PutIf::Stored { etag }) => {
                &&& after.len() == from + 1
                &&& now == writer.with_state(stamped, Some(etag@))
                &&& result matches Ok(PublishOutcome::Published)
            },
            Ok(PutIf::PreconditionFailed { .. }) => exists|read: Result<
                (ManifestState, Option<ETag>),
            >| #[trigger]
                current_read(after.take(from + 1), after, writer.key, read) && match read {
                    Ok((current, etag)) => {
                        &&& now == writer.with_state(current@, tag_of(etag))
                        &&& result matches Ok(PublishOutcome::Conflict { current: winner })
                            && winner@ == current@
                    },
                    Err(failed) => {
                        &&& now == writer
                        &&& result matches Err(error) && error == failed
                    },
                },
            Err(lost) => exists|read: Result<(ManifestState, Option<ETag>)>| #[trigger]
                current_read(after.take(from + 1), after, writer.key, read) && match read {
                    Ok((current, etag)) => {
                        &&& now == writer.with_state(current@, tag_of(etag))
                        &&& if current@ == stamped {
                            result matches Ok(PublishOutcome::Published)
                        } else if current@ == writer.state {
                            result matches Err(error) && error == lost
                        } else {
                            result matches Ok(PublishOutcome::Conflict { current: winner })
                                && winner@ == current@
                        }
                    },
                    Err(_) => {
                        &&& now == writer
                        &&& result matches Err(error) && error == lost
                    },
                },
        }
    }
}

impl ObjectManifestStore {
    /// Whether names and identifiers of the state are sorted.
    pub open spec fn wf(&self) -> bool {
        self.state.wf()
    }

    /// Opens the manifest at a key, to be published under an epoch.
    pub fn open<C: ObjectClient>(client: &mut C, key: &str, writer_epoch: u64) -> (result: Result<
        ObjectManifestStore,
    >)
        ensures
            exists|read: Result<(ManifestState, Option<ETag>)>| #[trigger]
                current_read(old(client).history(), final(client).history(), key@, read)
                    && match result {
                    Ok(store) => {
                        &&& store.wf()
                        &&& read matches Ok((state, etag)) && store@ == (ObjectManifest {
                            key: key@,
                            etag: tag_of(etag),
                            state: state@,
                            writer_epoch,
                        })
                    },
                    Err(error) => read matches Err(failed) && error == failed,
                },
    {
        let read: Result<(ManifestState, Option<ETag>)> = read_current(client, key);
        let ghost found = read;
        assert(current_read(old(client).history(), client.history(), key@, found));
        match read {
            Ok((state, etag)) => Ok(
                ObjectManifestStore { key: key.to_owned(), etag, state, writer_epoch },
            ),
            Err(error) => Err(error),
        }
    }

    /// Returns the state that was read or written last.
    pub fn state(&self) -> (state: &ManifestState)
        ensures
            *state == self.state,
    {
        &self.state
    }

    /// Tries once to publish a state.
    pub fn try_publish<C: ObjectClient>(&mut self, client: &mut C, next: ManifestState) -> (result:
        Result<PublishOutcome>)
        requires
            old(self).wf(),
            next.wf(),
        ensures
            final(self).wf(),
            publish_tried(
                old(client).history(),
                final(client).history(),
                old(self)@,
                next@,
                result,
                final(self)@,
            ),
    {
        let ghost before = client.history();
        let ghost from = before.len() as int;
        let ghost writer = self@;
        if self.state.writer_epoch > self.writer_epoch {
            return Err(
                Error::Fenced {
                    held_epoch: self.writer_epoch,
                    current_epoch: self.state.writer_epoch,
                },
            );
        }
        let mut next: ManifestState = next;
        next.writer_epoch = self.writer_epoch;
        let bytes: Vec<u8> = match encode_manifest_bytes(&next) {
            Ok(bytes) => bytes,
            Err(error) => {
                return Err(error);
            },
        };
        let precondition: Precondition = match &self.etag {
            Some(etag) => Precondition::IfMatch(etag.clone()),
            None => Precondition::IfNoneMatch,
        };
        let published: Result<PutIf> = client.put_if(
            self.key.as_str(),
            bytes.as_slice(),
            precondition,
        );
        let ghost middle = client.history();
        match published {
            Ok(PutIf::Stored { etag }) => {
                self.state = next;
                self.etag = Some(etag);
                Ok(PublishOutcome::Published)
            },
            Ok(PutIf::PreconditionFailed { .. }) => {
                let read: Result<(ManifestState, Option<ETag>)> = read_current(
                    client,
                    self.key.as_str(),
                );
                proof {
                    assert(client.history().take(from + 1) =~= middle);
                    assert(current_read(client.history().take(from + 1), client.history(), writer.key, read));
                }
                match read {
                    Ok((current, etag)) => {
                        self.state = current.clone();
                        self.etag = etag;
                        Ok(PublishOutcome::Conflict { current })
                    },
                    Err(error) => Err(error),
                }
            },
            Err(error) => {
                let read: Result<(ManifestState, Option<ETag>)> = read_current(
                    client,
                    self.key.as_str(),
                );
                proof {
                    assert(client.history().take(from + 1) =~= middle);
                    assert(current_read(client.history().take(from + 1), client.history(), writer.key, read));
                }
                match read {
                    Ok((current, etag)) => {
                        let is_next: bool = current.same(&next);
                        let is_base: bool = current.same(&self.state);
                        self.state = current.clone();
                        self.etag = etag;
                        if is_next {
                            Ok(PublishOutcome::Published)
                        } else if is_base {
                            Err(error)
                        } else {
                            Ok(PublishOutcome::Conflict { current })
                        }
                    },
                    Err(_) => Err(error),
                }
            },
        }
    }
}

/// What committing an edit with up to `limit` tries did and found.
pub open spec fn committed(
    before: Seq<Exchange>,
    after: Seq<Exchange>,
    writer: ObjectManifest,
    edit: ManifestEdit,
    limit: nat,
    result: Result<()>,
    now: ObjectManifest,
) -> bool {
    committed_within(before, after, writer, edit, limit, limit, result, now)
}

/// What committing an edit did and found, with so many of `limit` tries left.
///
/// The edit is made on the state that was seen last. An edit that fails, or that has nothing to
/// do, asks nothing. A lost race makes the edit anew on the state that won.
pub open spec fn committed_within(
    before: Seq<Exchange>,
    after: Seq<Exchange>,
    writer: ObjectManifest,
    edit: ManifestEdit,
    tries: nat,
    limit: nat,
    result: Result<()>,
    now: ObjectManifest,
) -> bool
    decreases tries, 2nat,
{
    if tries == 0 {
        &&& after == before
        &&& now == writer
        &&& result matches Err(error) && error.says(
            ErrorKind::Conflict,
            "manifest edit exceeded "@ + text::decimal(limit)
                + " concurrent CAS retries"@,
        )
    } else {
        exists|next: Result<Option<ManifestState>>| #[trigger]
            edits::edited(edit, writer.state, next) && edit_settled(
                before,
                after,
                writer,
                edit,
                tries,
                limit,
                next,
                result,
                now,
            )
    }
}

/// What follows on what the edit gave.
pub open spec fn edit_settled(
    before: Seq<Exchange>,
    after: Seq<Exchange>,
    writer: ObjectManifest,
    edit: ManifestEdit,
    tries: nat,
    limit: nat,
    next: Result<Option<ManifestState>>,
    result: Result<()>,
    now: ObjectManifest,
) -> bool
    decreases tries, 1nat,
{
    match next {
        Err(failed) => {
            &&& after == before
            &&& now == writer
            &&& result matches Err(error) && error == failed
        },
        Ok(None) => {
            &&& after == before
            &&& now == writer
            &&& result is Ok
        },
        Ok(Some(state)) => exists|
            middle: Seq<Exchange>,
            then: ObjectManifest,
            outcome: Result<PublishOutcome>,
        | #[trigger]
            publish_tried(before, middle, writer, state@, outcome, then) && try_settled(
                middle,
                after,
                then,
                edit,
                tries,
                limit,
                outcome,
                result,
                now,
            ),
    }
}

/// What follows on a try to publish.
pub open spec fn try_settled(
    middle: Seq<Exchange>,
    after: Seq<Exchange>,
    then: ObjectManifest,
    edit: ManifestEdit,
    tries: nat,
    limit: nat,
    outcome: Result<PublishOutcome>,
    result: Result<()>,
    now: ObjectManifest,
) -> bool
    decreases tries, 0nat,
{
    match outcome {
        Ok(PublishOutcome::Conflict { .. }) => tries > 0 && committed_within(
            middle,
            after,
            then,
            edit,
            (tries - 1) as nat,
            limit,
            result,
            now,
        ),
        Ok(PublishOutcome::Published) => after == middle && now == then && result is Ok,
        Ok(PublishOutcome::PublishedDurabilityUnknown { error: unknown }) => {
            &&& after == middle
            &&& now == then
            &&& result matches Err(error) && error == unknown
        },
        Err(failed) => {
            &&& after == middle
            &&& now == then
            &&& result matches Err(error) && error == failed
        },
    }
}

proof fn try_settles(
    before: Seq<Exchange>,
    middle: Seq<Exchange>,
    after: Seq<Exchange>,
    writer: ObjectManifest,
    then: ObjectManifest,
    edit: ManifestEdit,
    tries: nat,
    limit: nat,
    next: ManifestState,
    outcome: Result<PublishOutcome>,
    result: Result<()>,
    now: ObjectManifest,
)
    requires
        tries > 0,
        edits::edited(edit, writer.state, Ok(Some(next))),
        publish_tried(before, middle, writer, next@, outcome, then),
        try_settled(middle, after, then, edit, tries, limit, outcome, result, now),
    ensures
        committed_within(before, after, writer, edit, tries, limit, result, now),
{
    let given: Result<Option<ManifestState>> = Ok(Some(next));
    assert(edits::edited(edit, writer.state, given));
    assert(edit_settled(before, after, writer, edit, tries, limit, given, result, now));
}

impl ObjectManifestStore {
    /// Makes an edit and publishes it, anew on each state that wins a race, up to `limit` times.
    pub fn commit_edit_within<C: ObjectClient>(
        &mut self,
        client: &mut C,
        edit: &ManifestEdit,
        limit: u64,
    ) -> (result: Result<()>)
        requires
            old(self).wf(),
        ensures
            final(self).wf(),
            committed(
                old(client).history(),
                final(client).history(),
                old(self)@,
                *edit,
                limit as nat,
                result,
                final(self)@,
            ),
    {
        let ghost start = client.history();
        let ghost first = self@;
        let mut tries: u64 = limit;
        while tries > 0
            invariant
                self.wf(),
                start == old(client).history(),
                first == old(self)@,
                forall|after: Seq<Exchange>, result: Result<()>, now: ObjectManifest| #[trigger]
                    committed_within(
                        client.history(),
                        after,
                        self@,
                        *edit,
                        tries as nat,
                        limit as nat,
                        result,
                        now,
                    ) ==> committed_within(
                        start,
                        after,
                        first,
                        *edit,
                        limit as nat,
                        limit as nat,
                        result,
                        now,
                    ),
            decreases tries,
        {
            let ghost before = client.history();
            let ghost writer = self@;
            let edited: Result<Option<ManifestState>> = edit.apply(&self.state);
            let ghost given = edited;
            assert(edits::edited(*edit, writer.state, given));
            let next: ManifestState = match edited {
                Err(error) => {
                    let result: Result<()> = Err(error);
                    assert(edit_settled(
                        before,
                        before,
                        writer,
                        *edit,
                        tries as nat,
                        limit as nat,
                        given,
                        result,
                        self@,
                    ));
                    assert(committed_within(
                        before,
                        before,
                        writer,
                        *edit,
                        tries as nat,
                        limit as nat,
                        result,
                        self@,
                    ));
                    return result;
                },
                Ok(None) => {
                    let result: Result<()> = Ok(());
                    assert(edit_settled(
                        before,
                        before,
                        writer,
                        *edit,
                        tries as nat,
                        limit as nat,
                        given,
                        result,
                        self@,
                    ));
                    assert(committed_within(
                        before,
                        before,
                        writer,
                        *edit,
                        tries as nat,
                        limit as nat,
                        result,
                        self@,
                    ));
                    return result;
                },
                Ok(Some(next)) => next,
            };
            let outcome: Result<PublishOutcome> = self.try_publish(client, next);
            let ghost middle = client.history();
            let ghost then = self@;
            let ghost came = outcome;
            assert(publish_tried(before, middle, writer, next@, came, then));
            let settled: Result<()> = match outcome {
                Ok(PublishOutcome::Published) => Ok(()),
                Ok(PublishOutcome::PublishedDurabilityUnknown { error }) => Err(error),
                Ok(PublishOutcome::Conflict { .. }) => {
                    tries -= 1;
                    proof {
                        assert forall|
                            after: Seq<Exchange>,
                            result: Result<()>,
                            now: ObjectManifest,
                        | #[trigger]
                            committed_within(
                                middle,
                                after,
                                then,
                                *edit,
                                tries as nat,
                                limit as nat,
                                result,
                                now,
                            ) implies committed_within(
                            start,
                            after,
                            first,
                            *edit,
                            limit as nat,
                            limit as nat,
                            result,
                            now,
                        ) by {
                            try_settles(
                                before,
                                middle,
                                after,
                                writer,
                                then,
                                *edit,
                                (tries + 1) as nat,
                                limit as nat,
                                next,
                                came,
                                result,
                                now,
                            );
                        }
                    }
                    continue ;
                },
                Err(error) => Err(error),
            };
            proof {
                try_settles(
                    before,
                    middle,
                    middle,
                    writer,
                    then,
                    *edit,
                    tries as nat,
                    limit as nat,
                    next,
                    came,
                    settled,
                    then,
                );
            }
            return settled;
        }
        let result: Result<()> = Err(
            Error::Conflict {
                message: text::join_number(
                    "manifest edit exceeded ",
                    limit,
                    " concurrent CAS retries",
                ),
            },
        );
        assert(committed_within(
            client.history(),
            client.history(),
            self@,
            *edit,
            0,
            limit as nat,
            result,
            self@,
        ));
        result
    }

    /// Makes an edit and publishes it, anew on each state that wins a race.
    pub fn commit_edit<C: ObjectClient>(&mut self, client: &mut C, edit: &ManifestEdit) -> (result:
        Result<()>)
        requires
            old(self).wf(),
        ensures
            final(self).wf(),
            committed(
                old(client).history(),
                final(client).history(),
                old(self)@,
                *edit,
                MANIFEST_EDIT_MAX_ATTEMPTS as nat,
                result,
                final(self)@,
            ),
    {
        self.commit_edit_within(client, edit, MANIFEST_EDIT_MAX_ATTEMPTS as u64)
    }

    /// Publishes the current state, so that the epoch of this writer takes effect at once.
    pub fn claim_writer_epoch<C: ObjectClient>(&mut self, client: &mut C) -> (result: Result<()>)
        requires
            old(self).wf(),
        ensures
            final(self).wf(),
            committed(
                old(client).history(),
                final(client).history(),
                old(self)@,
                ManifestEdit::ClaimEpoch,
                MANIFEST_EDIT_MAX_ATTEMPTS as nat,
                result,
                final(self)@,
            ),
    {
        self.commit_edit(client, &ManifestEdit::ClaimEpoch)
    }

    /// Creates a bucket.
    pub fn create_bucket<C: ObjectClient>(
        &mut self,
        client: &mut C,
        name: String,
        options: BucketOptions,
    ) -> (result: Result<()>)
        requires
            old(self).wf(),
        ensures
            final(self).wf(),
            committed(
                old(client).history(),
                final(client).history(),
                old(self)@,
                (ManifestEdit::CreateBucket { name, options }),
                MANIFEST_EDIT_MAX_ATTEMPTS as nat,
                result,
                final(self)@,
            ),
    {
        self.commit_edit(client, &ManifestEdit::CreateBucket { name, options })
    }

    /// Drops a bucket with its table list. Its objects stay until no reader can need them.
    pub fn drop_bucket<C: ObjectClient>(&mut self, client: &mut C, name: String) -> (result: Result<
        (),
    >)
        requires
            old(self).wf(),
        ensures
            final(self).wf(),
            exists|edit: ManifestEdit| #[trigger]
                committed(
                    old(client).history(),
                    final(client).history(),
                    old(self)@,
                    edit,
                    MANIFEST_EDIT_MAX_ATTEMPTS as nat,
                    result,
                    final(self)@,
                ) && (edit matches ManifestEdit::DropBucket { name: dropped, pending, .. }
                    && dropped == name && pending@.len() == 0),
    {
        let edit = ManifestEdit::DropBucket {
            name,
            pending: Vec::new(),
            sequence: Sequence::zero(),
        };
        self.commit_edit(client, &edit)
    }

    /// Keeps a commit readable under a name.
    pub fn create_checkpoint<C: ObjectClient>(
        &mut self,
        client: &mut C,
        name: String,
        sequence: Sequence,
    ) -> (result: Result<()>)
        requires
            old(self).wf(),
        ensures
            final(self).wf(),
            committed(
                old(client).history(),
                final(client).history(),
                old(self)@,
                (ManifestEdit::CreateCheckpoint { name, sequence }),
                MANIFEST_EDIT_MAX_ATTEMPTS as nat,
                result,
                final(self)@,
            ),
    {
        self.commit_edit(client, &ManifestEdit::CreateCheckpoint { name, sequence })
    }

    /// Forgets a checkpoint.
    pub fn delete_checkpoint<C: ObjectClient>(&mut self, client: &mut C, name: String) -> (result:
        Result<()>)
        requires
            old(self).wf(),
        ensures
            final(self).wf(),
            committed(
                old(client).history(),
                final(client).history(),
                old(self)@,
                (ManifestEdit::DeleteCheckpoint { name }),
                MANIFEST_EDIT_MAX_ATTEMPTS as nat,
                result,
                final(self)@,
            ),
    {
        self.commit_edit(client, &ManifestEdit::DeleteCheckpoint { name })
    }

    /// Adds flushed tables to their buckets.
    pub fn add_tables<C: ObjectClient>(
        &mut self,
        client: &mut C,
        tables: Vec<(String, TableProperties)>,
        wal_replay_floor: Sequence,
    ) -> (result: Result<()>)
        requires
            old(self).wf(),
        ensures
            final(self).wf(),
            committed(
                old(client).history(),
                final(client).history(),
                old(self)@,
                (ManifestEdit::AddTables { tables, wal_replay_floor }),
                MANIFEST_EDIT_MAX_ATTEMPTS as nat,
                result,
                final(self)@,
            ),
    {
        self.commit_edit(client, &ManifestEdit::AddTables { tables, wal_replay_floor })
    }

    /// Puts the outputs of compactions in the place of their inputs, and marks obsolete blob
    /// files as deletable.
    pub fn replace_tables_batch_and_mark_blob_deletions<C: ObjectClient>(
        &mut self,
        client: &mut C,
        replacements: Vec<Replacement>,
        pending: Vec<u64>,
        sequence: Sequence,
    ) -> (result: Result<()>)
        requires
            old(self).wf(),
        ensures
            final(self).wf(),
            committed(
                old(client).history(),
                final(client).history(),
                old(self)@,
                (ManifestEdit::SwapTables { replacements, pending, sequence }),
                MANIFEST_EDIT_MAX_ATTEMPTS as nat,
                result,
                final(self)@,
            ),
    {
        self.commit_edit(client, &ManifestEdit::SwapTables { replacements, pending, sequence })
    }
}

/// A durably reserved range of file identifiers, each given out once.
///
/// The manifest counter has advanced before this value exists. Identifiers that are not used
/// stay gaps.
#[derive(Debug)]
pub struct FileIdReservation {
    next: u64,
    end_exclusive: u64,
}

impl FileIdReservation {
    /// The first identifier that was not given out yet.
    pub closed spec fn start(&self) -> u64 {
        self.next
    }

    /// The end of the range.
    pub closed spec fn end(&self) -> u64 {
        self.end_exclusive
    }

    fn new(start: u64, end_exclusive: u64) -> (reservation: FileIdReservation)
        ensures
            reservation.start() == start,
            reservation.end() == end_exclusive,
    {
        FileIdReservation { next: start, end_exclusive }
    }

    /// Gives out the next identifier, as that of a table.
    pub fn next_table_id(&mut self) -> (result: Result<TableId>)
        ensures
            final(self).end() == old(self).end(),
            match result {
                Ok(id) => {
                    &&& old(self).start() < old(self).end()
                    &&& id.0 == old(self).start()
                    &&& final(self).start() == old(self).start() + 1
                },
                Err(error) => {
                    &&& old(self).start() >= old(self).end()
                    &&& final(self).start() == old(self).start()
                    &&& error.says(ErrorKind::Corruption, "file-id reservation exhausted"@)
                },
            },
    {
        match self.next_file_id() {
            Ok(id) => Ok(TableId(id)),
            Err(error) => Err(error),
        }
    }

    /// Gives out the next identifier.
    pub fn next_file_id(&mut self) -> (result: Result<u64>)
        ensures
            final(self).end() == old(self).end(),
            match result {
                Ok(id) => {
                    &&& old(self).start() < old(self).end()
                    &&& id == old(self).start()
                    &&& final(self).start() == old(self).start() + 1
                },
                Err(error) => {
                    &&& old(self).start() >= old(self).end()
                    &&& final(self).start() == old(self).start()
                    &&& error.says(ErrorKind::Corruption, "file-id reservation exhausted"@)
                },
            },
    {
        if self.next >= self.end_exclusive {
            return Err(Error::corruption("file-id reservation exhausted"));
        }
        let id: u64 = self.next;
        self.next = id + 1;
        Ok(id)
    }
}

/// What reserving file identifiers gives: the state with the counter advanced and the range
/// before it.
pub open spec fn reserve_edited(
    before: Manifest,
    count: u64,
    result: Result<(ManifestState, FileIdReservation)>,
) -> bool {
    match result {
        Ok((next, range)) => {
            &&& before.files_reserved()
            &&& range.start() == before.next_file_id
            &&& range.end() == before.next_file_id + count
            &&& next@ == (Manifest { next_file_id: range.end(), ..before })
        },
        Err(error) => if before.files_reserved() {
            &&& before.next_file_id + count > u64::MAX
            &&& error.says(ErrorKind::Corruption, "file-id high-water mark overflow"@)
        } else {
            before.file_id_fault() matches Some(text) && error.says(ErrorKind::Corruption, text)
        },
    }
}

/// Reserves file identifiers in a state.
pub fn reserve_edit(state: &ManifestState, count: u64) -> (result: Result<
    (ManifestState, FileIdReservation),
>)
    requires
        state.wf(),
    ensures
        reserve_edited(state@, count, result),
        result matches Ok((next, _)) ==> next.wf(),
{
    if let Err(error) = state.validate_next_file_id() {
        return Err(error);
    }
    let start: u64 = state.next_file_id;
    match start.checked_add(count) {
        Some(end) => {
            let mut next: ManifestState = state.clone();
            next.next_file_id = end;
            Ok((next, FileIdReservation::new(start, end)))
        },
        None => Err(Error::corruption("file-id high-water mark overflow")),
    }
}

/// What reserving file identifiers durably did and found, with so many tries left.
pub open spec fn reserved(
    before: Seq<Exchange>,
    after: Seq<Exchange>,
    writer: ObjectManifest,
    count: u64,
    tries: nat,
    result: Result<FileIdReservation>,
    now: ObjectManifest,
) -> bool
    decreases tries, 2nat,
{
    if tries == 0 {
        &&& after == before
        &&& now == writer
        &&& result matches Err(error) && error.says(
            ErrorKind::Conflict,
            "file-id reservation exceeded "@ + text::decimal(MANIFEST_EDIT_MAX_ATTEMPTS as nat)
                + " concurrent CAS retries"@,
        )
    } else {
        exists|next: Result<(ManifestState, FileIdReservation)>| #[trigger]
            reserve_edited(writer.state, count, next) && reserve_settled(
                before,
                after,
                writer,
                count,
                tries,
                next,
                result,
                now,
            )
    }
}

/// What follows on a range that could be reserved.
pub open spec fn reserve_settled(
    before: Seq<Exchange>,
    after: Seq<Exchange>,
    writer: ObjectManifest,
    count: u64,
    tries: nat,
    next: Result<(ManifestState, FileIdReservation)>,
    result: Result<FileIdReservation>,
    now: ObjectManifest,
) -> bool
    decreases tries, 1nat,
{
    match next {
        Err(failed) => {
            &&& after == before
            &&& now == writer
            &&& result matches Err(error) && error == failed
        },
        Ok((state, range)) => if count == 0 {
            &&& after == before
            &&& now == writer
            &&& result matches Ok(given) && given == range
        } else {
            exists|
                middle: Seq<Exchange>,
                then: ObjectManifest,
                outcome: Result<PublishOutcome>,
            | #[trigger]
                publish_tried(before, middle, writer, state@, outcome, then) && range_settled(
                    middle,
                    after,
                    then,
                    count,
                    tries,
                    range,
                    outcome,
                    result,
                    now,
                )
        },
    }
}

/// What follows on a try to publish the counter behind a range.
pub open spec fn range_settled(
    middle: Seq<Exchange>,
    after: Seq<Exchange>,
    then: ObjectManifest,
    count: u64,
    tries: nat,
    range: FileIdReservation,
    outcome: Result<PublishOutcome>,
    result: Result<FileIdReservation>,
    now: ObjectManifest,
) -> bool
    decreases tries, 0nat,
{
    match outcome {
        Ok(PublishOutcome::Conflict { .. }) => tries > 0 && reserved(
            middle,
            after,
            then,
            count,
            (tries - 1) as nat,
            result,
            now,
        ),
        Ok(PublishOutcome::Published) => {
            &&& after == middle
            &&& now == then
            &&& result matches Ok(given) && given == range
        },
        Ok(PublishOutcome::PublishedDurabilityUnknown { error: unknown }) => {
            &&& after == middle
            &&& now == then
            &&& result matches Err(error) && error == unknown
        },
        Err(failed) => {
            &&& after == middle
            &&& now == then
            &&& result matches Err(error) && error == failed
        },
    }
}

impl ObjectManifestStore {
    fn reserve_with_tries<C: ObjectClient>(
        &mut self,
        client: &mut C,
        count: u64,
        tries: usize,
    ) -> (result: Result<FileIdReservation>)
        requires
            old(self).wf(),
        ensures
            final(self).wf(),
            reserved(
                old(client).history(),
                final(client).history(),
                old(self)@,
                count,
                tries as nat,
                result,
                final(self)@,
            ),
        decreases tries,
    {
        if tries == 0 {
            return Err(
                Error::Conflict {
                    message: text::join_number(
                        "file-id reservation exceeded ",
                        MANIFEST_EDIT_MAX_ATTEMPTS as u64,
                        " concurrent CAS retries",
                    ),
                },
            );
        }
        let ghost before = client.history();
        let ghost writer = self@;
        let edited: Result<(ManifestState, FileIdReservation)> = reserve_edit(&self.state, count);
        assert(reserve_edited(writer.state, count, edited));
        let (next, range): (ManifestState, FileIdReservation) = match edited {
            Err(error) => {
                return Err(error);
            },
            Ok(edited) => edited,
        };
        if count == 0 {
            return Ok(range);
        }
        let ghost state = next@;
        let outcome: Result<PublishOutcome> = self.try_publish(client, next);
        assert(publish_tried(before, client.history(), writer, state, outcome, self@));
        match outcome {
            Ok(PublishOutcome::Published) => Ok(range),
            Ok(PublishOutcome::PublishedDurabilityUnknown { error }) => Err(error),
            Ok(PublishOutcome::Conflict { .. }) => self.reserve_with_tries(
                client,
                count,
                tries - 1,
            ),
            Err(error) => Err(error),
        }
    }

    /// Reserves file identifiers durably.
    pub fn reserve_file_ids<C: ObjectClient>(&mut self, client: &mut C, count: usize) -> (result:
        Result<FileIdReservation>)
        requires
            old(self).wf(),
        ensures
            final(self).wf(),
            reserved(
                old(client).history(),
                final(client).history(),
                old(self)@,
                count as u64,
                MANIFEST_EDIT_MAX_ATTEMPTS as nat,
                result,
                final(self)@,
            ),
    {
        self.reserve_with_tries(client, count as u64, MANIFEST_EDIT_MAX_ATTEMPTS)
    }
}

/// A writer that has seen a newer epoch than its own asks the store nothing and changes
/// nothing, whatever edit it tries.
pub proof fn fenced_writer_writes_nothing(
    before: Seq<Exchange>,
    after: Seq<Exchange>,
    writer: ObjectManifest,
    edit: ManifestEdit,
    tries: nat,
    limit: nat,
    result: Result<()>,
    now: ObjectManifest,
)
    requires
        writer.state.writer_epoch > writer.writer_epoch,
        tries > 0,
        committed_within(before, after, writer, edit, tries, limit, result, now),
    ensures
        after == before,
        now == writer,
{
    let next = choose|next: Result<Option<ManifestState>>| #[trigger]
        edits::edited(edit, writer.state, next) && edit_settled(
            before,
            after,
            writer,
            edit,
            tries,
            limit,
            next,
            result,
            now,
        );
    assert(edit_settled(before, after, writer, edit, tries, limit, next, result, now));
}

/// Whether an edit is in place in a state: there is nothing left to do, or the state is what
/// the edit gave, under the epoch of the writer.
pub open spec fn is_in_place(edit: ManifestEdit, epoch: u64, state: Manifest) -> bool {
    ||| edits::edited(edit, state, Ok(None))
    ||| exists|base: Manifest, next: ManifestState| #[trigger]
        edits::edited(edit, base, Ok(Some(next))) && state == (Manifest {
            writer_epoch: epoch,
            ..next@
        })
}

/// An edit that was committed is in place in the state that the writer then has, whoever else
/// published in between.
pub proof fn committed_edit_is_in_place(
    before: Seq<Exchange>,
    after: Seq<Exchange>,
    writer: ObjectManifest,
    edit: ManifestEdit,
    tries: nat,
    limit: nat,
    now: ObjectManifest,
)
    requires
        committed_within(before, after, writer, edit, tries, limit, Ok(()), now),
    ensures
        is_in_place(edit, writer.writer_epoch, now.state),
        now.key == writer.key,
        now.writer_epoch == writer.writer_epoch,
    decreases tries,
{
    let result: Result<()> = Ok(());
    if tries > 0 {
        let next = choose|next: Result<Option<ManifestState>>| #[trigger]
            edits::edited(edit, writer.state, next) && edit_settled(
                before,
                after,
                writer,
                edit,
                tries,
                limit,
                next,
                result,
                now,
            );
        if next is Ok && next->Ok_0 is Some {
            let state = next->Ok_0->0;
            assert(edits::edited(edit, writer.state, Ok(Some(state))));
            let (middle, then, outcome) = choose|
                middle: Seq<Exchange>,
                then: ObjectManifest,
                outcome: Result<PublishOutcome>,
            | #[trigger]
                publish_tried(before, middle, writer, state@, outcome, then) && try_settled(
                    middle,
                    after,
                    then,
                    edit,
                    tries,
                    limit,
                    outcome,
                    result,
                    now,
                );
            assert(try_settled(middle, after, then, edit, tries, limit, outcome, result, now));
            if outcome matches Ok(PublishOutcome::Conflict { .. }) {
                committed_edit_is_in_place(
                    middle,
                    after,
                    then,
                    edit,
                    (tries - 1) as nat,
                    limit,
                    now,
                );
            }
        }
    }
}

/// Over a real store, a manifest that was published replaced exactly the one that the writer
/// had seen, and a later read gives it back with its tag.
pub proof fn published_manifest_is_read_back(
    before: Seq<Exchange>,
    middle: Seq<Exchange>,
    after: Seq<Exchange>,
    states: Seq<Map<Seq<char>, Stored>>,
    writer: ObjectManifest,
    next: Manifest,
    now: ObjectManifest,
    read: Result<(ManifestState, Option<ETag>)>,
)
    requires
        publish_tried(before, middle, writer, next, Ok(PublishOutcome::Published), now),
        middle.len() == before.len() + 1,
        decode::readable(writer.stamped(next)),
        current_read(middle, after, writer.key, read),
        model::answered(after, before.len() as int, states),
    ensures
        memory::condition_holds(states[0], writer.key, writer.condition()),
        now.state == writer.stamped(next),
        read matches Ok((state, etag)) && state@ == now.state && tag_of(etag) == now.etag,
{
    let from = before.len() as int;
    let stamped = writer.stamped(next);
    let payload = encode::payload_of(stamped);
    assert(after[from] == middle[from]);
    assert(model::answers(states[0], after[from], states[1]));
    assert(states[1].dom().contains(writer.key));
    assert(states[1][writer.key].bytes == encode::framed(payload));
    assert(model::answers(states[1], after[from + 1], states[2]));
    framed_len(payload);
    assert(after.len() == from + 3);
    assert(model::answers(states[2], after[from + 2], states[3]));
    assert(is_manifest(encode::framed(payload), stamped));
    if read is Ok {
        let found = (read->Ok_0).0;
        decode::framed_payload_is_found(payload);
        decode::framed_payload_is_found(encode::payload_of(found@));
        decode::reading_inverts_writing(stamped, payload, found@);
    }
}

proof fn framed_len(payload: Seq<u8>)
    requires
        payload.len() <= limits::MAX_MANIFEST_PAYLOAD_BYTES,
    ensures
        encode::framed(payload).len() == payload.len() + encode::HEADER_LEN,
{
    vstd::bytes::lemma_auto_spec_u32_to_from_le_bytes();
    vstd::bytes::lemma_auto_spec_u16_to_from_le_bytes();
}

/// Identifiers that are reserved were not used by any file, and are never reserved again in a
/// manifest that may follow.
pub proof fn reserved_identifiers_are_fresh(
    before: Manifest,
    count: u64,
    next: ManifestState,
    range: FileIdReservation,
    later: Manifest,
    more: u64,
    last: ManifestState,
    second: FileIdReservation,
    id: u64,
)
    requires
        reserve_edited(before, count, Ok((next, range))),
        range.start() <= id < range.end(),
        next@.may_become(later),
        reserve_edited(later, more, Ok((last, second))),
    ensures
        !before.uses_file(id),
        id < second.start(),
{
}

/// Whether an exchange writes nothing, or writes a manifest of the writer's epoch under the
/// writer's key, provided that the object there has not changed since it was seen.
pub open spec fn writes_carefully(exchange: Exchange, key: Seq<char>, epoch: u64) -> bool {
    match exchange {
        Exchange::Put { .. } => false,
        Exchange::Delete { .. } => false,
        Exchange::PutIf { key: asked, bytes, .. } => asked == key && exists|manifest: Manifest|
            manifest.writer_epoch == epoch && bytes == #[trigger] encode::framed(
                encode::payload_of(manifest),
            ),
        _ => true,
    }
}

proof fn reads_write_nothing(
    before: Seq<Exchange>,
    after: Seq<Exchange>,
    key: Seq<char>,
    epoch: u64,
    read: Result<(ManifestState, Option<ETag>)>,
    i: int,
)
    requires
        current_read(before, after, key, read),
        before.len() <= i < after.len(),
    ensures
        writes_carefully(after[i], key, epoch),
        !(after[i] is PutIf),
{
}

/// A try to publish writes at most once, as its first request, and only on the condition that the
/// store still has what the writer saw: the object of the tag that it saw, or none.
pub proof fn publishing_replaces_only_what_was_seen(
    before: Seq<Exchange>,
    after: Seq<Exchange>,
    writer: ObjectManifest,
    next: Manifest,
    result: Result<PublishOutcome>,
    now: ObjectManifest,
    i: int,
)
    requires
        publish_tried(before, after, writer, next, result, now),
        before.len() <= i < after.len(),
    ensures
        writes_carefully(after[i], writer.key, writer.writer_epoch),
        after[i] is PutIf <==> i == before.len(),
        after[i] matches Exchange::PutIf { condition, .. } ==> match writer.etag {
            Some(tag) => condition == Condition::Tagged(tag),
            None => condition == Condition::Absent,
        },
        writer.writer_epoch >= writer.state.writer_epoch,
        now.key == writer.key,
        now.writer_epoch == writer.writer_epoch,
{
    let from = before.len() as int;
    let stamped = writer.stamped(next);
    assert(stamped.writer_epoch == writer.writer_epoch);
    assert(encode::framed(encode::payload_of(stamped)) == encode::framed(
        encode::payload_of(stamped),
    ));
    if i > from {
        let read = choose|read: Result<(ManifestState, Option<ETag>)>| #[trigger]
            current_read(after.take(from + 1), after, writer.key, read);
        reads_write_nothing(
            after.take(from + 1),
            after,
            writer.key,
            writer.writer_epoch,
            read,
            i,
        );
    }
}

/// A try to publish is reported as published only if the store took the manifest, or was then
/// seen to have it.
pub proof fn published_means_stored(
    before: Seq<Exchange>,
    after: Seq<Exchange>,
    writer: ObjectManifest,
    next: Manifest,
    now: ObjectManifest,
)
    requires
        publish_tried(before, after, writer, next, Ok(PublishOutcome::Published), now),
    ensures
        now.state == (Manifest { writer_epoch: writer.writer_epoch, ..next }),
        after[before.len() as int] matches Exchange::PutIf { key, bytes, reply, .. } && {
            &&& key == writer.key
            &&& bytes == encode::framed(encode::payload_of(now.state))
            &&& reply matches Ok(PutIf::Stored { etag }) ==> now.etag == Some(etag@)
            &&& !(reply matches Ok(PutIf::PreconditionFailed { .. }))
            &&& reply is Err ==> (after.last() matches Exchange::Get { reply: Ok(Some(found)), .. }
                && is_manifest(found@, now.state)) || now.state == no_manifest()
        },
{
}

/// Whether a history goes on from an earlier one with careful writes only, and no more of them than
/// a number.
#[verifier::opaque]
pub open spec fn goes_on_carefully(
    before: Seq<Exchange>,
    after: Seq<Exchange>,
    key: Seq<char>,
    epoch: u64,
    most: nat,
) -> bool {
    &&& before.len() <= after.len()
    &&& forall|i: int| 0 <= i < before.len() ==> #[trigger] after[i] == before[i]
    &&& forall|i: int|
        before.len() <= i < after.len() ==> writes_carefully(#[trigger] after[i], key, epoch)
    &&& written_count(after.skip(before.len() as int)) <= most
}

proof fn going_on_twice(
    before: Seq<Exchange>,
    middle: Seq<Exchange>,
    after: Seq<Exchange>,
    key: Seq<char>,
    epoch: u64,
    first: nat,
    second: nat,
)
    requires
        goes_on_carefully(before, middle, key, epoch, first),
        goes_on_carefully(middle, after, key, epoch, second),
    ensures
        goes_on_carefully(before, after, key, epoch, first + second),
{
    reveal(goes_on_carefully);
    let early = middle.skip(before.len() as int);
    let late = after.skip(middle.len() as int);
    assert(after.skip(before.len() as int) =~= early + late);
    written_count_joined(early, late);
    assert forall|i: int| 0 <= i < before.len() implies #[trigger] after[i] == before[i] by {
        assert(after[i] == middle[i]);
    }
    assert forall|i: int| before.len() <= i < after.len() implies writes_carefully(
        #[trigger] after[i],
        key,
        epoch,
    ) by {
        if i < middle.len() {
            assert(after[i] == middle[i]);
        }
    }
}

proof fn standing_still_is_careful(
    history: Seq<Exchange>,
    key: Seq<char>,
    epoch: u64,
    most: nat,
)
    ensures
        goes_on_carefully(history, history, key, epoch, most),
{
    reveal(goes_on_carefully);
    assert(history.skip(history.len() as int) =~= Seq::<Exchange>::empty());
}

proof fn one_write_is_among_more(
    before: Seq<Exchange>,
    after: Seq<Exchange>,
    key: Seq<char>,
    epoch: u64,
    most: nat,
)
    requires
        goes_on_carefully(before, after, key, epoch, 1),
        most > 0,
    ensures
        goes_on_carefully(before, after, key, epoch, most),
{
    reveal(goes_on_carefully);
}

/// However often an edit is tried, the history before it stays, each of its writes is a careful
/// one, and there are no more of them than tries.
pub proof fn committing_writes_carefully(
    before: Seq<Exchange>,
    after: Seq<Exchange>,
    writer: ObjectManifest,
    edit: ManifestEdit,
    tries: nat,
    limit: nat,
    result: Result<()>,
    now: ObjectManifest,
)
    requires
        committed_within(before, after, writer, edit, tries, limit, result, now),
    ensures
        goes_on_carefully(before, after, writer.key, writer.writer_epoch, tries),
    decreases tries,
{
    let key = writer.key;
    let epoch = writer.writer_epoch;
    if after == before {
        standing_still_is_careful(before, key, epoch, tries);
    } else if tries > 0 {
        let next = choose|next: Result<Option<ManifestState>>| #[trigger]
            edits::edited(edit, writer.state, next) && edit_settled(
                before,
                after,
                writer,
                edit,
                tries,
                limit,
                next,
                result,
                now,
            );
        assert(edit_settled(before, after, writer, edit, tries, limit, next, result, now));
        let state = next->Ok_0->0;
        let (middle, then, outcome) = choose|
            middle: Seq<Exchange>,
            then: ObjectManifest,
            outcome: Result<PublishOutcome>,
        | #[trigger]
            publish_tried(before, middle, writer, state@, outcome, then) && try_settled(
                middle,
                after,
                then,
                edit,
                tries,
                limit,
                outcome,
                result,
                now,
            );
        one_try_is_careful(before, middle, writer, state@, outcome, then);
        if outcome is Ok && outcome->Ok_0 is Conflict {
            committing_writes_carefully(
                middle,
                after,
                then,
                edit,
                (tries - 1) as nat,
                limit,
                result,
                now,
            );
            going_on_twice(before, middle, after, key, epoch, 1, (tries - 1) as nat);
        } else {
            one_write_is_among_more(before, middle, key, epoch, tries);
        }
    }
}

proof fn one_try_is_careful(
    before: Seq<Exchange>,
    after: Seq<Exchange>,
    writer: ObjectManifest,
    next: Manifest,
    result: Result<PublishOutcome>,
    now: ObjectManifest,
)
    requires
        publish_tried(before, after, writer, next, result, now),
    ensures
        goes_on_carefully(before, after, writer.key, writer.writer_epoch, 1),
        now.key == writer.key,
        now.writer_epoch == writer.writer_epoch,
{
    reveal(goes_on_carefully);
    publishing_keeps_history(before, after, writer, next, result, now);
    assert forall|i: int| before.len() <= i < after.len() implies writes_carefully(
        #[trigger] after[i],
        writer.key,
        writer.writer_epoch,
    ) by {
        publishing_replaces_only_what_was_seen(before, after, writer, next, result, now, i);
    }
}

/// The number of writes among exchanges.
pub open spec fn written_count(exchanges: Seq<Exchange>) -> nat
    decreases exchanges.len(),
{
    if exchanges.len() == 0 {
        0
    } else {
        let before = written_count(exchanges.drop_last());
        match exchanges.last() {
            Exchange::Put { .. } => before + 1,
            Exchange::PutIf { .. } => before + 1,
            Exchange::Delete { .. } => before + 1,
            _ => before,
        }
    }
}

proof fn written_count_joined(a: Seq<Exchange>, b: Seq<Exchange>)
    ensures
        written_count(a + b) == written_count(a) + written_count(b),
    decreases b.len(),
{
    if b.len() == 0 {
        assert(a + b =~= a);
    } else {
        assert((a + b).drop_last() =~= a + b.drop_last());
        written_count_joined(a, b.drop_last());
    }
}

proof fn later_reads_are_not_writes(exchanges: Seq<Exchange>)
    requires
        forall|i: int|
            0 < i < exchanges.len() ==> {
                &&& !(#[trigger] exchanges[i] is PutIf)
                &&& !(exchanges[i] is Put)
                &&& !(exchanges[i] is Delete)
            },
    ensures
        written_count(exchanges) <= 1,
        exchanges.len() == 0 ==> written_count(exchanges) == 0,
    decreases exchanges.len(),
{
    if exchanges.len() > 0 {
        let shorter = exchanges.drop_last();
        assert forall|i: int| 0 < i < shorter.len() implies {
            &&& !(#[trigger] shorter[i] is PutIf)
            &&& !(shorter[i] is Put)
            &&& !(shorter[i] is Delete)
        } by {
            assert(exchanges[i] == shorter[i]);
        }
        later_reads_are_not_writes(shorter);
        if exchanges.len() > 1 {
            assert(exchanges[exchanges.len() - 1] == exchanges.last());
        }
    }
}

proof fn publishing_keeps_history(
    before: Seq<Exchange>,
    after: Seq<Exchange>,
    writer: ObjectManifest,
    next: Manifest,
    result: Result<PublishOutcome>,
    now: ObjectManifest,
)
    requires
        publish_tried(before, after, writer, next, result, now),
    ensures
        before.len() <= after.len(),
        forall|i: int| 0 <= i < before.len() ==> #[trigger] after[i] == before[i],
        written_count(after.skip(before.len() as int)) <= 1,
        now.key == writer.key,
        now.writer_epoch == writer.writer_epoch,
{
    let added = after.skip(before.len() as int);
    assert forall|i: int| 0 < i < added.len() implies {
        &&& !(#[trigger] added[i] is PutIf)
        &&& !(added[i] is Put)
        &&& !(added[i] is Delete)
    } by {
        assert(added[i] == after[before.len() + i]);
        publishing_replaces_only_what_was_seen(
            before,
            after,
            writer,
            next,
            result,
            now,
            before.len() + i,
        );
    }
    later_reads_are_not_writes(added);
}

/// A reservation holds exactly as many identifiers as were asked for, and the manifest that follows
/// reserves the next ones from where it ends; nothing else changes.
pub proof fn reservations_follow_each_other(
    before: Manifest,
    count: u64,
    next: ManifestState,
    range: FileIdReservation,
    more: u64,
    last: ManifestState,
    second: FileIdReservation,
)
    requires
        reserve_edited(before, count, Ok((next, range))),
        reserve_edited(next@, more, Ok((last, second))),
    ensures
        range.end() - range.start() == count,
        second.start() == range.end(),
        second.end() - second.start() == more,
        last@.next_file_id == before.next_file_id + count + more,
        next@.tables == before.tables,
        next@.buckets == before.buckets,
        next@.bucket_generations == before.bucket_generations,
        next@.pending_blob_deletions == before.pending_blob_deletions,
        next@.checkpoints == before.checkpoints,
        next@.wal_replay_floor == before.wal_replay_floor,
        next@.writer_epoch == before.writer_epoch,
        next@.next_bucket_generation == before.next_bucket_generation,
{
}

} // verus!
