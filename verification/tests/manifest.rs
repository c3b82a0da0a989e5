use trine_kv::codec::CodecId;
use trine_kv::error::{Error, Result};
use trine_kv::limits;
use trine_kv::manifest::decode::{decode_manifest, decode_state};
use trine_kv::manifest::edits::ManifestEdit;
use trine_kv::manifest::encode::{
    encode_manifest_bytes, encode_state, put_blob_level_merge_policy, put_bool, put_bytes,
    put_compression_profile, put_filter_depth_curve, put_filter_policy, put_index_search_policy,
    put_prefix_extractor, put_prefix_filter_policy, put_u32, put_u64, put_usize, MANIFEST_MAGIC,
    MANIFEST_VERSION,
};
use trine_kv::manifest::object::{ObjectManifestStore, PublishOutcome};
use trine_kv::manifest::state::ManifestState;
use trine_kv::manifest::store::{manifest_path, ManifestStore, PreparedManifestPublish};
use trine_kv::object_store::memory::InMemoryObjectStore;
use trine_kv::object_store::{ETag, ObjectClient, ObjectListPage, ObjectMeta, Precondition, PutIf};
use trine_kv::options::{
    BlobLevelMergePolicy, BucketOptions, CompressionProfile, FilterDepthCurve, FilterPolicy,
    IndexSearchPolicy, PrefixFilterPolicy,
};
use trine_kv::prefix::PrefixExtractor;
use trine_kv::table::{TableId, TableLevel, TableProperties};
use trine_kv::types::Sequence;

struct AppliedManifestThenError {
    inner: InMemoryObjectStore,
    fail_before_once: bool,
    fail_once: bool,
}

impl ObjectClient for AppliedManifestThenError {
    fn get(&mut self, key: &str) -> Result<Option<Vec<u8>>> {
        self.inner.get(key)
    }

    fn get_range(
        &mut self,
        key: &str,
        offset: u64,
        len: u64,
        expected_etag: &ETag,
    ) -> Result<Vec<u8>> {
        self.inner.get_range(key, offset, len, expected_etag)
    }

    fn put(&mut self, key: &str, bytes: &[u8]) -> Result<ETag> {
        self.inner.put(key, bytes)
    }

    fn delete(&mut self, key: &str) -> Result<()> {
        self.inner.delete(key)
    }

    fn list(&mut self, prefix: &str) -> Result<Vec<ObjectMeta>> {
        self.inner.list(prefix)
    }

    fn list_page(
        &mut self,
        prefix: &str,
        after: Option<&str>,
        limit: usize,
    ) -> Result<ObjectListPage> {
        self.inner.list_page(prefix, after, limit)
    }

    fn head(&mut self, key: &str) -> Result<Option<ObjectMeta>> {
        self.inner.head(key)
    }

    fn put_if(&mut self, key: &str, bytes: &[u8], precondition: Precondition) -> Result<PutIf> {
        if self.fail_before_once {
            self.fail_before_once = false;
            return Err(Error::Io {
                message: "injected manifest CAS transport failure".to_string(),
            });
        }
        let fail = self.fail_once;
        self.fail_once = false;
        let outcome = self.inner.put_if(key, bytes, precondition)?;
        if fail && matches!(outcome, PutIf::Stored { .. }) {
            return Err(Error::Io {
                message: "injected response loss after manifest CAS applied".to_string(),
            });
        }
        Ok(outcome)
    }
}

#[test]
fn manifest_decode_rejects_table_count_before_large_allocation() {
    let mut payload = Vec::new();
    payload.extend_from_slice(&0_u64.to_le_bytes());
    payload.extend_from_slice(&0_u32.to_le_bytes());
    payload.extend_from_slice(&1_u32.to_le_bytes());
    payload.extend_from_slice(&0_u32.to_le_bytes());
    payload.extend_from_slice(&u32::MAX.to_le_bytes());

    let error = decode_state(&payload).expect_err("impossible table count should fail");
    assert!(
        error.text().contains("table count exceeds payload bytes"),
        "unexpected error: {error:?}"
    );
}

#[test]
fn manifest_decode_rejects_payload_len_before_large_allocation() {
    let payload_len = u32::try_from(limits::MAX_MANIFEST_PAYLOAD_BYTES + 1)
        .expect("test payload length fits u32");
    let mut bytes = Vec::new();
    bytes.extend_from_slice(&MANIFEST_MAGIC.to_le_bytes());
    bytes.extend_from_slice(&MANIFEST_VERSION.to_le_bytes());
    bytes.extend_from_slice(&payload_len.to_le_bytes());
    bytes.extend_from_slice(&0_u32.to_le_bytes());

    let error = decode_manifest(&bytes).expect_err("oversized manifest payload should fail");

    assert!(error.text().contains("manifest payload length"));
}

#[test]
fn manifest_decode_rejects_the_previous_incompatible_layout_version() {
    let mut bytes =
        encode_manifest_bytes(&ManifestState::empty()).expect("current manifest encodes");
    bytes[4..6].copy_from_slice(&1_u16.to_le_bytes());

    let error = decode_manifest(&bytes).expect_err("previous layout version must be rejected");
    assert!(matches!(error, Error::UnsupportedFormat { .. }));
}

fn put_bucket_options_header(payload: &mut Vec<u8>) {
    put_u64(payload, 0);
    put_u32(payload, 1);
    put_bytes(payload, b"users").expect("bucket name encodes");
    put_bool(payload, true);
    put_compression_profile(payload, CompressionProfile::Fast);
    put_usize(payload, 4096).expect("block size encodes");
    put_filter_policy(payload, FilterPolicy::Bloom { bits_per_key: 12 });
    put_prefix_extractor(payload, &PrefixExtractor::Disabled).expect("prefix extractor encodes");
    put_prefix_filter_policy(payload, PrefixFilterPolicy::Bloom { bits_per_prefix: 8 });
    put_index_search_policy(payload, IndexSearchPolicy::Auto);
    put_usize(payload, 128 * 1024).expect("threshold encodes");
    put_blob_level_merge_policy(payload, BlobLevelMergePolicy::Auto);
}

fn put_rest_of_manifest(payload: &mut Vec<u8>) {
    put_u64(payload, 1); // bucket generation
    put_u32(payload, 1); // table buckets
    put_bytes(payload, b"users").expect("table bucket encodes");
    put_u32(payload, 0); // tables in users
    put_u32(payload, 0); // pending blob deletions
    put_u32(payload, 0); // checkpoints
    put_u64(payload, 0); // writer_epoch
    put_u64(payload, 1); // next_file_id
    put_u64(payload, 2); // next_bucket_generation
}

#[test]
fn manifest_round_trips_custom_filter_depth_curve() {
    // The current format persists a custom curve and decodes it back exactly.
    let mut payload = Vec::new();
    put_bucket_options_header(&mut payload);
    put_filter_depth_curve(&mut payload, FilterDepthCurve::Custom { step: 3, floor: 6 });
    put_rest_of_manifest(&mut payload);

    let state = decode_state(&payload).expect("manifest decodes");
    let options = state.buckets().get("users").expect("bucket options exist");
    assert_eq!(
        options.filter_depth_curve,
        FilterDepthCurve::Custom { step: 3, floor: 6 }
    );
}

#[test]
fn manifest_round_trips_cost_weighted_filter_depth_curve() {
    // The ascending remote curve persists and decodes back exactly.
    let mut payload = Vec::new();
    put_bucket_options_header(&mut payload);
    put_filter_depth_curve(
        &mut payload,
        FilterDepthCurve::CostWeighted { step: 4, ceil: 24 },
    );
    put_rest_of_manifest(&mut payload);

    let state = decode_state(&payload).expect("manifest decodes");
    let options = state.buckets().get("users").expect("bucket options exist");
    assert_eq!(
        options.filter_depth_curve,
        FilterDepthCurve::CostWeighted { step: 4, ceil: 24 }
    );
}

fn table(id: u64, smallest: u8, largest: u8, blob_file_ids: Vec<u64>) -> TableProperties {
    TableProperties {
        id: TableId(id),
        level: TableLevel::zero(),
        smallest_user_key: vec![smallest],
        largest_user_key: vec![largest],
        smallest_sequence: Sequence::new(1),
        largest_sequence: Sequence::new(1),
        codec: CodecId::Uncompressed,
        blob_file_ids,
        blob_references: Vec::new(),
    }
}

#[test]
fn manifest_rejects_duplicate_bucket_generations_and_file_identifiers() {
    let mut duplicate_generation = ManifestState::empty();
    duplicate_generation
        .insert_new_bucket("a".to_owned(), BucketOptions::default())
        .expect("insert a");
    duplicate_generation
        .insert_new_bucket("b".to_owned(), BucketOptions::default())
        .expect("insert b");
    let generation_a = duplicate_generation
        .bucket_generation("a")
        .expect("a generation");
    duplicate_generation
        .bucket_generations
        .insert("b".to_owned(), generation_a);
    assert!(
        encode_state(&duplicate_generation).is_err(),
        "logical bucket incarnations must be globally unique"
    );

    let mut duplicate_file = ManifestState::empty();
    duplicate_file
        .insert_new_bucket("data".to_owned(), BucketOptions::default())
        .expect("insert data");
    duplicate_file.tables.insert(
        "data".to_owned(),
        vec![
            table(1, b'a', b'm', Vec::new()),
            table(1, b'n', b'z', Vec::new()),
        ],
    );
    duplicate_file.next_file_id = 2;
    assert!(
        encode_state(&duplicate_file).is_err(),
        "table identifiers must be unique within their object namespace"
    );
}

#[test]
fn manifest_allows_one_blob_file_to_be_referenced_by_multiple_tables() {
    let mut state = ManifestState::empty();
    state
        .insert_new_bucket("data".to_owned(), BucketOptions::default())
        .expect("insert data");
    state.tables.insert(
        "data".to_owned(),
        vec![table(1, b'a', b'm', vec![1]), table(2, b'n', b'z', vec![1])],
    );
    state.next_file_id = 3;
    state.pending_blob_deletions.insert(1, Sequence::new(2));

    encode_state(&state).expect(
        "shared live blob references and a conflicting pending-deletion marker must remain readable",
    );
}

fn object_manifest_state(floor: u64) -> ManifestState {
    let mut state = ManifestState::empty();
    state.wal_replay_floor = Sequence::new(floor);
    state
}

#[test]
fn object_manifest_creates_then_advances_via_cas() {
    let mut store = InMemoryObjectStore::new();
    let mut manifest = ObjectManifestStore::open(&mut store, "MANIFEST", 1).expect("open empty");
    assert_eq!(
        manifest.state().wal_replay_floor(),
        Sequence::zero(),
        "absent manifest opens empty"
    );

    // First publish creates the object (If-None-Match).
    assert!(matches!(
        manifest
            .try_publish(&mut store, object_manifest_state(5))
            .expect("create"),
        PublishOutcome::Published
    ));
    assert_eq!(manifest.state().wal_replay_floor(), Sequence::new(5));

    // Second publish advances the existing object (If-Match).
    assert!(matches!(
        manifest
            .try_publish(&mut store, object_manifest_state(9))
            .expect("advance"),
        PublishOutcome::Published
    ));
    assert_eq!(manifest.state().wal_replay_floor(), Sequence::new(9));
}

#[test]
fn object_manifest_reconciles_applied_then_errored_cas() {
    let mut client = AppliedManifestThenError {
        inner: InMemoryObjectStore::new(),
        fail_before_once: false,
        fail_once: true,
    };
    let mut manifest = ObjectManifestStore::open(&mut client, "MANIFEST", 1).expect("open");

    assert!(matches!(
        manifest
            .try_publish(&mut client, object_manifest_state(5))
            .expect("read-after-error reconciles exact intended state"),
        PublishOutcome::Published
    ));
    assert_eq!(manifest.state().wal_replay_floor(), Sequence::new(5));
}

#[test]
fn object_manifest_preserves_unapplied_transport_error_category() {
    let mut client = AppliedManifestThenError {
        inner: InMemoryObjectStore::new(),
        fail_before_once: true,
        fail_once: false,
    };
    let mut manifest = ObjectManifestStore::open(&mut client, "MANIFEST", 1).expect("open");

    let error = manifest
        .try_publish(&mut client, object_manifest_state(5))
        .expect_err("unapplied transport error must be returned");
    assert!(
        matches!(error, Error::Io { .. }),
        "unapplied I/O must not be converted into a CAS conflict: {error:?}"
    );
    assert_eq!(manifest.state().wal_replay_floor(), Sequence::zero());
}

#[test]
fn object_manifest_reports_conflict_then_rebases() {
    let mut store = InMemoryObjectStore::new();
    // Two writers that both observed the (empty) manifest.
    let mut writer_a = ObjectManifestStore::open(&mut store, "MANIFEST", 1).expect("open A");
    let mut writer_b = ObjectManifestStore::open(&mut store, "MANIFEST", 1).expect("open B");

    // A wins the create race.
    assert!(matches!(
        writer_a
            .try_publish(&mut store, object_manifest_state(5))
            .expect("A creates"),
        PublishOutcome::Published
    ));

    // B's create loses the CAS; it learns A's winning state and does not
    // advance past it.
    match writer_b
        .try_publish(&mut store, object_manifest_state(7))
        .expect("B conflicts")
    {
        PublishOutcome::Conflict { current } => {
            assert_eq!(current.wal_replay_floor(), Sequence::new(5));
        }
        PublishOutcome::PublishedDurabilityUnknown { .. } => {
            panic!("object-store CAS does not use filesystem directory durability")
        }
        PublishOutcome::Published => panic!("B must lose the create race"),
    }
    assert_eq!(
        writer_b.state().wal_replay_floor(),
        Sequence::new(5),
        "B refreshed to the winning state, ready to rebase"
    );

    // After rebasing onto A's state, B's If-Match publish now succeeds.
    assert!(matches!(
        writer_b
            .try_publish(&mut store, object_manifest_state(7))
            .expect("B retries"),
        PublishOutcome::Published
    ));
    assert_eq!(writer_b.state().wal_replay_floor(), Sequence::new(7));
}

fn create_bucket_in(
    store: &mut ManifestStore,
    client: &mut InMemoryObjectStore,
    name: &str,
) -> Result<()> {
    store.commit_edit_in(
        client,
        &ManifestEdit::CreateBucket {
            name: name.to_owned(),
            options: BucketOptions::default(),
        },
    )
}

#[test]
fn object_manifest_fences_a_stale_writer_after_takeover() {
    let mut client = InMemoryObjectStore::new();

    // Writer A holds epoch 1 and publishes.
    let mut a = ManifestStore::open_object_store(&mut client, "MANIFEST", 1).expect("open A");
    create_bucket_in(&mut a, &mut client, "alpha").expect("A publishes");

    // Writer B takes over with a higher epoch (2) and claims it on open,
    // stamping the manifest immediately.
    let mut b = ManifestStore::open_object_store(&mut client, "MANIFEST", 2).expect("open B");
    b.claim_object_epoch(&mut client).expect("B claims epoch 2");

    // A is still alive (partitioned) and tries to publish again: it loses the
    // CAS, refreshes onto B's manifest (epoch 2 > 1), and is fenced — it does
    // NOT retry into a clobber.
    let fenced = create_bucket_in(&mut a, &mut client, "beta")
        .expect_err("A must be fenced after B's takeover");
    assert!(
        matches!(
            fenced,
            Error::Fenced {
                held_epoch: 1,
                current_epoch: 2
            }
        ),
        "expected Fenced{{1,2}}, got {fenced:?}"
    );

    // B, the legitimate owner, still publishes.
    create_bucket_in(&mut b, &mut client, "gamma").expect("B still writes");
}

#[test]
fn object_store_manifest_create_bucket_rebases_on_conflict() {
    let mut client = InMemoryObjectStore::new();
    let mut writer_a = ManifestStore::open_object_store(&mut client, "MANIFEST", 1).expect("open A");
    let mut writer_b = ManifestStore::open_object_store(&mut client, "MANIFEST", 1).expect("open B");

    // A creates "alpha" (first publish = If-None-Match create).
    create_bucket_in(&mut writer_a, &mut client, "alpha").expect("A creates alpha");
    assert!(writer_a.state().buckets().contains_key("alpha"));

    // B still believes the manifest is empty; creating "beta" loses the
    // initial CAS, rebases onto A's winning state (which has alpha), re-runs
    // the edit, and retries — ending with both buckets.
    create_bucket_in(&mut writer_b, &mut client, "beta").expect("B creates beta after rebase");
    assert!(
        writer_b.state().buckets().contains_key("alpha"),
        "B rebased onto A's winning state"
    );
    assert!(writer_b.state().buckets().contains_key("beta"));

    // A fresh open sees both — the durable manifest holds the merged result.
    let reopened = ManifestStore::open_object_store(&mut client, "MANIFEST", 1).expect("reopen");
    assert!(reopened.state().buckets().contains_key("alpha"));
    assert!(reopened.state().buckets().contains_key("beta"));
}

#[test]
fn object_store_manifest_create_bucket_is_idempotent() {
    let mut client = InMemoryObjectStore::new();
    let mut manifest = ManifestStore::open_object_store(&mut client, "MANIFEST", 1).expect("open");
    create_bucket_in(&mut manifest, &mut client, "alpha").expect("create");
    // Re-creating with identical options is a no-op (the edit returns None).
    create_bucket_in(&mut manifest, &mut client, "alpha").expect("idempotent re-create");
    assert_eq!(manifest.state().buckets().len(), 1);
}

#[test]
fn object_store_manifest_rejects_sync_publish() {
    let mut client = InMemoryObjectStore::new();
    let manifest = ManifestStore::open_object_store(&mut client, "MANIFEST", 1).expect("open");
    // The sync API is unsupported for object storage (it cannot await a CAS).
    let error = manifest
        .create_bucket("alpha".to_string(), BucketOptions::default())
        .expect_err("sync create must be rejected");
    assert!(
        error.text().contains("async API"),
        "unexpected error: {error:?}"
    );
}

#[test]
fn manifest_successor_rejects_every_regressing_durable_fence() {
    let mut current = ManifestState::empty();
    current.wal_replay_floor = Sequence::new(9);
    current.next_file_id = 12;
    current.next_bucket_generation = 7;
    current.writer_epoch = 4;

    let regressions = [
        {
            let mut next = current.clone();
            next.wal_replay_floor = Sequence::new(8);
            next
        },
        {
            let mut next = current.clone();
            next.next_file_id = 11;
            next
        },
        {
            let mut next = current.clone();
            next.next_bucket_generation = 6;
            next
        },
        {
            let mut next = current.clone();
            next.writer_epoch = 3;
            next
        },
    ];

    for next in regressions {
        assert!(
            matches!(
                current.validate_successor(&next),
                Err(Error::Corruption { .. })
            ),
            "regressing successor must be rejected: {next:?}"
        );
    }
}

#[test]
fn manifest_successor_preserves_retained_bucket_identity() {
    let mut current = ManifestState::empty();
    current
        .insert_new_bucket("accounts".to_owned(), BucketOptions::default())
        .expect("bucket inserts");

    let mut changed = current.clone();
    changed.bucket_generations.insert("accounts".to_owned(), 2);
    changed.next_bucket_generation = 3;

    assert!(matches!(
        current.validate_successor(&changed),
        Err(Error::Corruption { .. })
    ));

    let mut removed = current.clone();
    removed.remove_bucket("accounts");
    assert!(current.validate_successor(&removed).is_ok());
}

/// A file store whose file is kept by the test.
struct FileManifest {
    store: ManifestStore,
    file: Option<Vec<u8>>,
}

impl FileManifest {
    fn open(file: Option<Vec<u8>>, create: bool) -> Result<Self> {
        let (mut store, publish) =
            ManifestStore::open_or_create(&manifest_path("/db"), create, file.clone())?;
        let mut file = file;
        if let Some(publish) = publish {
            file = Some(publish.bytes.clone());
            store.finish_publish(publish, Ok(PublishOutcome::Published))?;
        }
        Ok(Self { store, file })
    }

    fn publish(
        &mut self,
        publish: Option<PreparedManifestPublish>,
        outcome: Result<PublishOutcome>,
    ) -> Result<()> {
        match publish {
            None => Ok(()),
            Some(publish) => {
                if !matches!(outcome, Err(_)) {
                    self.file = Some(publish.bytes.clone());
                }
                self.store.finish_publish(publish, outcome)
            }
        }
    }
}

fn io_error() -> Error {
    Error::Io {
        message: "no such directory".to_string(),
    }
}

#[test]
fn failed_publish_leaves_the_state() {
    let mut manifest = FileManifest::open(None, true).expect("manifest opens");
    let publish = manifest
        .store
        .create_bucket("users".to_string(), BucketOptions::default())
        .expect("edit is valid");
    let error = manifest
        .publish(publish, Err(io_error()))
        .expect_err("publish should fail");
    assert!(matches!(error, Error::Io { .. }));
    assert!(
        !manifest.store.state().buckets().contains_key("users"),
        "failed publish must not advance in-memory manifest state"
    );
}

#[test]
fn reserved_file_ids_survive_reopen_and_are_never_reused() {
    let mut manifest = FileManifest::open(None, true).expect("open manifest");
    let reservation = manifest.store.reserve_file_ids(2).expect("reserve");
    manifest.file = Some(reservation.publish().expect("publishes").bytes.clone());
    let mut first = manifest
        .store
        .finish_reservation(reservation, Ok(PublishOutcome::Published))
        .expect("reserve first range");
    assert_eq!(first.next_file_id().expect("first id"), 1);
    assert_eq!(first.next_file_id().expect("second id"), 2);
    assert!(first.next_file_id().is_err());

    let mut reopened = FileManifest::open(manifest.file, false).expect("reopen manifest");
    let reservation = reopened.store.reserve_file_ids(1).expect("reserve");
    let mut second = reopened
        .store
        .finish_reservation(reservation, Ok(PublishOutcome::Published))
        .expect("reserve after reopen");
    assert_eq!(
        second.next_file_id().expect("next durable id"),
        3,
        "reserved identifiers remain consumed even when no object was written"
    );
}

#[test]
fn unknown_durability_keeps_the_published_state_and_reports_it() {
    let mut manifest = FileManifest::open(None, true).expect("open manifest");
    let reservation = manifest.store.reserve_file_ids(1).expect("reserve");
    manifest.file = Some(reservation.publish().expect("publishes").bytes.clone());
    let error = manifest
        .store
        .finish_reservation(
            reservation,
            Ok(PublishOutcome::PublishedDurabilityUnknown {
                error: Error::ManifestPublishedDurabilityUnknown {
                    message: "directory sync failed".to_string(),
                },
            }),
        )
        .expect_err("directory sync failure is returned");
    assert!(matches!(
        error,
        Error::ManifestPublishedDurabilityUnknown { .. }
    ));
    assert_eq!(
        manifest.store.state().next_file_id,
        2,
        "in-memory state follows the namespace that already changed"
    );
    let reopened = FileManifest::open(manifest.file, false).expect("reopen published manifest");
    assert_eq!(reopened.store.state().next_file_id, 2);
}

#[test]
fn published_checkpoints_are_read_back() {
    let mut manifest = FileManifest::open(None, true).expect("manifest opens");
    let publish = manifest
        .store
        .create_checkpoint("cp".to_owned(), Sequence::new(7))
        .expect("checkpoint is valid");
    manifest
        .publish(publish, Ok(PublishOutcome::Published))
        .expect("checkpoint publishes");
    assert_eq!(
        manifest.store.checkpoint_sequence("cp"),
        Some(Sequence::new(7))
    );
    let again = manifest
        .store
        .create_checkpoint("cp".to_owned(), Sequence::new(8))
        .expect_err("names are unique");
    assert!(matches!(again, Error::CheckpointAlreadyExists { .. }));

    let reopened = FileManifest::open(manifest.file, false).expect("manifest reopens");
    assert_eq!(
        reopened.store.checkpoint_sequence("cp"),
        Some(Sequence::new(7))
    );
    assert_eq!(
        reopened.store.state().checkpoints().get("cp"),
        Some(&Sequence::new(7))
    );
    let missing = reopened
        .store
        .delete_checkpoint("other".to_owned())
        .expect_err("no such checkpoint");
    assert!(matches!(missing, Error::CheckpointNotFound { .. }));
}

#[test]
fn missing_manifest_opens_empty_and_is_published_only_to_be_created() {
    let absent = FileManifest::open(None, false).expect("opens empty");
    assert!(absent.file.is_none());
    assert!(absent.store.state().buckets().is_empty());
    let created = FileManifest::open(None, true).expect("creates");
    assert!(created.file.is_some());
    assert_eq!(manifest_path("/db"), "/db/MANIFEST");
}

#[test]
fn damaged_manifest_is_rejected() {
    let mut state = ManifestState::empty();
    state
        .insert_new_bucket("data".to_owned(), BucketOptions::default())
        .expect("insert data");
    let bytes = encode_manifest_bytes(&state).expect("encodes");
    let read = decode_manifest(&bytes).expect("decodes");
    assert!(read.same(&state));
    let mut damaged = bytes.clone();
    let last = damaged.len() - 1;
    damaged[last] ^= 1;
    assert!(decode_manifest(&damaged).is_err());
    assert!(decode_manifest(&bytes[..last]).is_err());
}

#[test]
fn repeated_table_edits_change_nothing() {
    let mut client = InMemoryObjectStore::new();
    let mut manifest = ObjectManifestStore::open(&mut client, "MANIFEST", 1).expect("open");
    manifest
        .create_bucket(&mut client, "data".to_string(), BucketOptions::default())
        .expect("creates");
    let mut reserved = manifest
        .reserve_file_ids(&mut client, 2)
        .expect("reserves");
    let first = reserved.next_table_id().expect("first id").get();
    let second = reserved.next_table_id().expect("second id").get();
    let flushed = vec![(
        "data".to_string(),
        table(first, b'a', b'm', Vec::new()),
    )];
    manifest
        .add_tables(&mut client, flushed.clone(), Sequence::new(3))
        .expect("adds");
    manifest
        .add_tables(&mut client, flushed, Sequence::new(3))
        .expect("adds once");
    assert_eq!(
        manifest.state().tables().get("data").expect("tables").len(),
        1
    );
    assert_eq!(manifest.state().wal_replay_floor(), Sequence::new(3));
    let swap = || {
        vec![(
            "data".to_string(),
            vec![TableId(first)],
            vec![table(second, b'a', b'm', Vec::new())],
        )]
    };
    for _ in 0..2 {
        manifest
            .replace_tables_batch_and_mark_blob_deletions(
                &mut client,
                swap(),
                vec![first],
                Sequence::new(4),
            )
            .expect("swaps");
    }
    let tables = manifest.state().tables().get("data").expect("tables");
    assert_eq!(tables.len(), 1);
    assert_eq!(tables[0].id, TableId(second));
    assert_eq!(
        manifest.state().pending_blob_deletions().get(&first),
        Some(&Sequence::new(4))
    );
}

/// A client on which another writer publishes just before each of the first `races` writes.
struct RacingClient {
    inner: InMemoryObjectStore,
    races: usize,
    fail: bool,
}

impl RacingClient {
    fn new(races: usize) -> Self {
        RacingClient {
            inner: InMemoryObjectStore::new(),
            races,
            fail: false,
        }
    }
}

impl ObjectClient for RacingClient {
    fn get(&mut self, key: &str) -> Result<Option<Vec<u8>>> {
        self.inner.get(key)
    }

    fn get_range(
        &mut self,
        key: &str,
        offset: u64,
        len: u64,
        expected_etag: &ETag,
    ) -> Result<Vec<u8>> {
        self.inner.get_range(key, offset, len, expected_etag)
    }

    fn put(&mut self, key: &str, bytes: &[u8]) -> Result<ETag> {
        self.inner.put(key, bytes)
    }

    fn delete(&mut self, key: &str) -> Result<()> {
        self.inner.delete(key)
    }

    fn list(&mut self, prefix: &str) -> Result<Vec<ObjectMeta>> {
        self.inner.list(prefix)
    }

    fn list_page(
        &mut self,
        prefix: &str,
        after: Option<&str>,
        limit: usize,
    ) -> Result<ObjectListPage> {
        self.inner.list_page(prefix, after, limit)
    }

    fn head(&mut self, key: &str) -> Result<Option<ObjectMeta>> {
        self.inner.head(key)
    }

    fn put_if(&mut self, key: &str, bytes: &[u8], precondition: Precondition) -> Result<PutIf> {
        if self.races > 0 {
            self.races -= 1;
            let mut other = ManifestState::empty();
            other.wal_replay_floor = Sequence::new(self.races as u64 + 1);
            self.inner.put(key, &encode_manifest_bytes(&other)?)?;
        } else if self.fail {
            return Err(Error::Io {
                message: "injected write failure".to_string(),
            });
        }
        self.inner.put_if(key, bytes, precondition)
    }
}

#[test]
fn a_manifest_store_outlasts_any_number_of_lost_races() {
    let mut client = RacingClient::new(50);
    let mut store = ManifestStore::open_object_store(&mut client, "MANIFEST", 1).expect("opens");
    store
        .commit_edit_in(
            &mut client,
            &ManifestEdit::CreateBucket {
                name: "late".to_owned(),
                options: BucketOptions::default(),
            },
        )
        .expect("publishes after the races");
    assert_eq!(client.races, 0);
    assert!(store.state().buckets().get("late").is_some());
    let reopened = ManifestStore::open_object_store(&mut client, "MANIFEST", 1).expect("reopens");
    assert!(reopened.state().same(store.state()));
}

#[test]
fn an_object_manifest_gives_up_after_so_many_lost_races() {
    let mut client = RacingClient::new(50);
    let mut object = ObjectManifestStore::open(&mut client, "MANIFEST", 1).expect("opens");
    let error = object
        .create_bucket(&mut client, "late".to_owned(), BucketOptions::default())
        .expect_err("loses every race");
    assert_eq!(
        error.text(),
        "manifest edit exceeded 32 concurrent CAS retries"
    );
    assert_eq!(client.races, 18);
    assert_eq!(object.state().wal_replay_floor(), Sequence::new(19));
}

#[test]
fn a_failed_epoch_claim_leaves_the_manifest_store_as_it_was() {
    let mut client = RacingClient::new(1);
    let mut store = ManifestStore::open_object_store(&mut client, "MANIFEST", 1).expect("opens");
    client.fail = true;
    let error = store
        .claim_object_epoch(&mut client)
        .expect_err("the write after the race fails");
    assert_eq!(error.text(), "injected write failure");
    assert_eq!(client.races, 0);
    assert_eq!(store.state().wal_replay_floor(), Sequence::zero());

    client.fail = false;
    store.claim_object_epoch(&mut client).expect("claims");
    assert_eq!(store.state().wal_replay_floor(), Sequence::new(1));
    assert_eq!(store.state().writer_epoch, 1);
}

#[test]
fn an_object_manifest_is_cloned_and_installed() {
    let mut client = InMemoryObjectStore::new();
    let mut store = ManifestStore::open_object_store(&mut client, "MANIFEST", 1).expect("opens");
    let mut object = store.clone_object_manifest().expect("clones");
    object
        .create_bucket(&mut client, "users".to_owned(), BucketOptions::default())
        .expect("publishes");
    assert!(store.state().buckets().get("users").is_none());
    store.install_object_manifest(object).expect("installs");
    assert!(store.state().buckets().get("users").is_some());

    let mut native = ManifestStore::open_or_create("/db/MANIFEST", true, None)
        .expect("creates")
        .0;
    let refused = native.clone_object_manifest().expect_err("not an object store");
    assert_eq!(refused.text(), "manifest backend is not object storage");
    let object = store.clone_object_manifest().expect("clones");
    let refused = native
        .install_object_manifest(object)
        .expect_err("not an object store");
    assert_eq!(refused.text(), "manifest backend is not object storage");
}
