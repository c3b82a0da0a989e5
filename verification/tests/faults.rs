use trine_kv::codec::CodecId;
use trine_kv::error::{Error, ErrorKind, Result};
use trine_kv::manifest::decode::{decode_manifest, decode_state};
use trine_kv::manifest::edits::{add_tables_edit, create_bucket_edit};
use trine_kv::manifest::encode::{
    encode_manifest_bytes, encode_state, put_blob_level_merge_policy, put_bool, put_bytes,
    put_compression_profile, put_filter_policy, put_index_search_policy, put_prefix_extractor,
    put_prefix_filter_policy, put_u32, put_u64, put_u8, put_usize,
};
use trine_kv::manifest::object::{read_current, reserve_edit, MAX_MANIFEST_OBJECT_BYTES};
use trine_kv::manifest::state::ManifestState;
use trine_kv::manifest::store::ManifestStore;
use trine_kv::object_store::backend::{ObjectStoreBackend, StorageObjectId, StorageObjectKind};
use trine_kv::object_store::contract::{
    validate_object_list_page, verify_object_client_contract_at_key,
};
use trine_kv::object_store::listing::StorageObjectListRequest;
use trine_kv::object_store::memory::InMemoryObjectStore;
use trine_kv::object_store::reclamation::verify_object_store_reclamation_at_key;
use trine_kv::object_store::{
    ETag, ObjectClient, ObjectListPage, ObjectMeta, ObjectVersion, Precondition, PutIf,
};
use trine_kv::options::{
    BlobLevelMergePolicy, BucketOptions, CompressionProfile, FilterPolicy, IndexSearchPolicy,
    PrefixFilterPolicy,
};
use trine_kv::prefix::PrefixExtractor;
use trine_kv::table::{TableId, TableLevel, TableProperties};
use trine_kv::types::Sequence;

fn says(error: &Error, kind: ErrorKind, text: &str) {
    assert_eq!(error.kind(), kind, "unexpected error: {error:?}");
    assert_eq!(error.text(), text);
}

fn unreadable(payload: &[u8], kind: ErrorKind, text: &str) {
    says(
        &decode_state(payload).expect_err("payload is refused"),
        kind,
        text,
    );
}

fn options_of_bucket(payload: &mut Vec<u8>, name: &[u8]) {
    put_bytes(payload, name).expect("name encodes");
    put_bool(payload, true);
    put_compression_profile(payload, CompressionProfile::Fast);
    put_usize(payload, 4096).expect("block size encodes");
    put_filter_policy(payload, FilterPolicy::Disabled);
    put_prefix_extractor(payload, &PrefixExtractor::Disabled).expect("extractor encodes");
    put_prefix_filter_policy(payload, PrefixFilterPolicy::Disabled);
    put_index_search_policy(payload, IndexSearchPolicy::Auto);
    put_usize(payload, 1024).expect("threshold encodes");
    put_blob_level_merge_policy(payload, BlobLevelMergePolicy::Auto);
}

fn bucket(payload: &mut Vec<u8>, name: &[u8], generation: u64) {
    options_of_bucket(payload, name);
    put_u8(payload, 0);
    put_u64(payload, generation);
}

fn payload_with_buckets(count: u32) -> Vec<u8> {
    let mut payload = Vec::new();
    put_u64(&mut payload, 0);
    put_u32(&mut payload, count);
    payload
}

fn table(id: u64) -> TableProperties {
    TableProperties {
        id: TableId(id),
        level: TableLevel::zero(),
        smallest_user_key: vec![b'a'],
        largest_user_key: vec![b'z'],
        smallest_sequence: Sequence::new(1),
        largest_sequence: Sequence::new(1),
        codec: CodecId::Uncompressed,
        blob_file_ids: Vec::new(),
        blob_references: Vec::new(),
    }
}

fn state_with_bucket() -> ManifestState {
    let mut state = ManifestState::empty();
    state
        .insert_new_bucket("data".to_owned(), BucketOptions::default())
        .expect("insert data");
    state
}

#[test]
fn short_payloads_name_the_missing_field() {
    unreadable(
        &[],
        ErrorKind::InvalidFormat,
        "invalid manifest: short u64",
    );
    unreadable(
        &[0; 10],
        ErrorKind::InvalidFormat,
        "invalid manifest: short u32",
    );
    let mut payload = payload_with_buckets(1);
    put_u32(&mut payload, 9);
    payload.push(b'x');
    unreadable(
        &payload,
        ErrorKind::InvalidFormat,
        "invalid manifest: short bytes",
    );
    let mut payload = payload_with_buckets(1);
    put_bytes(&mut payload, b"data").expect("name encodes");
    unreadable(
        &payload,
        ErrorKind::InvalidFormat,
        "invalid manifest: short u8",
    );
}

#[test]
fn unknown_tags_are_named_with_their_number() {
    let mut payload = payload_with_buckets(1);
    put_bytes(&mut payload, b"data").expect("name encodes");
    put_u8(&mut payload, 7);
    unreadable(&payload, ErrorKind::InvalidFormat, "invalid manifest bool 7");

    let mut payload = payload_with_buckets(1);
    put_bytes(&mut payload, b"data").expect("name encodes");
    put_bool(&mut payload, false);
    put_u8(&mut payload, 9);
    unreadable(
        &payload,
        ErrorKind::InvalidFormat,
        "unknown manifest compression profile 9",
    );

    let mut payload = payload_with_buckets(1);
    options_of_bucket(&mut payload, b"data");
    put_u8(&mut payload, 4);
    unreadable(
        &payload,
        ErrorKind::Corruption,
        "unknown filter depth curve tag 4",
    );

    let mut payload = payload_with_buckets(0);
    put_u32(&mut payload, 1);
    put_bytes(&mut payload, b"data").expect("bucket encodes");
    put_u32(&mut payload, 1);
    put_u64(&mut payload, 1);
    put_u32(&mut payload, 0);
    put_bytes(&mut payload, b"a").expect("key encodes");
    put_bytes(&mut payload, b"z").expect("key encodes");
    put_u64(&mut payload, 1);
    put_u64(&mut payload, 1);
    put_u8(&mut payload, 200);
    put_u64(&mut payload, 0);
    put_u64(&mut payload, 0);
    unreadable(
        &payload,
        ErrorKind::UnsupportedFormat,
        "unknown manifest table codec 200",
    );
}

#[test]
fn names_must_be_text_and_sorted() {
    let mut payload = payload_with_buckets(1);
    put_bytes(&mut payload, &[0xff]).expect("name encodes");
    unreadable(
        &payload,
        ErrorKind::InvalidFormat,
        "manifest bucket name is not valid UTF-8",
    );

    let mut payload = payload_with_buckets(2);
    bucket(&mut payload, b"b", 1);
    bucket(&mut payload, b"a", 2);
    unreadable(
        &payload,
        ErrorKind::InvalidFormat,
        "invalid manifest: manifest buckets are not strictly sorted",
    );

    let mut payload = payload_with_buckets(0);
    put_u32(&mut payload, 0);
    put_u32(&mut payload, 2);
    put_u64(&mut payload, 5);
    put_u64(&mut payload, 1);
    put_u64(&mut payload, 5);
    put_u64(&mut payload, 1);
    unreadable(
        &payload,
        ErrorKind::InvalidFormat,
        "invalid manifest: pending blob deletions are not sorted",
    );

    let mut payload = payload_with_buckets(0);
    put_u32(&mut payload, 0);
    put_u32(&mut payload, 0);
    put_u32(&mut payload, 1);
    put_bytes(&mut payload, b"").expect("name encodes");
    put_u64(&mut payload, 1);
    unreadable(
        &payload,
        ErrorKind::InvalidFormat,
        "invalid manifest: checkpoint name is empty",
    );
}

#[test]
fn counts_must_fit_the_payload() {
    let mut payload = payload_with_buckets(0);
    put_u32(&mut payload, 1);
    put_u32(&mut payload, 0);
    put_u32(&mut payload, u32::MAX);
    unreadable(
        &payload,
        ErrorKind::InvalidFormat,
        "invalid manifest: table count exceeds payload bytes",
    );

    let mut payload = payload_with_buckets(0);
    put_u32(&mut payload, 0);
    put_u32(&mut payload, 1);
    unreadable(
        &payload,
        ErrorKind::InvalidFormat,
        "invalid manifest: pending blob deletion count exceeds payload bytes",
    );

    let mut payload = payload_with_buckets(0);
    put_u32(&mut payload, 0);
    put_u32(&mut payload, 0);
    put_u32(&mut payload, 1);
    unreadable(
        &payload,
        ErrorKind::InvalidFormat,
        "invalid manifest: checkpoint count exceeds payload bytes",
    );
}

fn internal_key(payload: &mut Vec<u8>, user_key: &[u8]) {
    put_bytes(payload, user_key).expect("key encodes");
    put_u64(payload, 1);
    put_u8(payload, 1);
    put_u32(payload, 0);
}

#[test]
fn order_of_a_blob_reference_is_tested_before_its_fields() {
    let mut payload = payload_with_buckets(0);
    put_u32(&mut payload, 1);
    put_bytes(&mut payload, b"data").expect("bucket encodes");
    put_u32(&mut payload, 1);
    put_u64(&mut payload, 1);
    put_u32(&mut payload, 0);
    put_bytes(&mut payload, b"a").expect("key encodes");
    put_bytes(&mut payload, b"z").expect("key encodes");
    put_u64(&mut payload, 1);
    put_u64(&mut payload, 1);
    put_u8(&mut payload, 0);
    put_u32(&mut payload, 0);
    put_u32(&mut payload, 2);
    put_u64(&mut payload, 5);
    put_u64(&mut payload, 10);
    put_u64(&mut payload, 1);
    internal_key(&mut payload, b"a");
    internal_key(&mut payload, b"b");
    let one_reference = payload.clone();
    put_u64(&mut payload, 5);
    payload.extend_from_slice(&[0xff; 60]);
    unreadable(
        &payload,
        ErrorKind::InvalidFormat,
        "invalid manifest: blob references are not sorted",
    );

    let mut payload = one_reference;
    put_u64(&mut payload, 6);
    payload.extend_from_slice(&[0xff; 60]);
    unreadable(
        &payload,
        ErrorKind::InvalidFormat,
        "invalid manifest: short bytes",
    );
}

#[test]
fn payloads_end_with_the_counters() {
    let mut payload = encode_state(&ManifestState::empty()).expect("empty state encodes");
    assert!(decode_state(&payload).is_ok());
    payload.push(0);
    unreadable(
        &payload,
        ErrorKind::InvalidFormat,
        "invalid manifest: trailing payload bytes",
    );
}

#[test]
fn readable_payloads_that_break_the_rules_are_corrupt() {
    let mut payload = payload_with_buckets(0);
    put_u32(&mut payload, 0);
    put_u32(&mut payload, 1);
    put_u64(&mut payload, 8);
    put_u64(&mut payload, 1);
    put_u32(&mut payload, 0);
    put_u64(&mut payload, 0);
    put_u64(&mut payload, 3);
    put_u64(&mut payload, 1);
    unreadable(
        &payload,
        ErrorKind::Corruption,
        "manifest file-id high-water mark 3 is below live-object minimum 9",
    );
}

#[test]
fn default_manifest_is_empty() {
    assert!(ManifestState::default().same(&ManifestState::empty()));
    assert_eq!(ManifestState::default().next_file_id, 1);
    assert_eq!(ManifestState::default().next_bucket_generation, 1);
}

#[test]
fn written_states_name_the_rule_they_break() {
    let mut state = state_with_bucket();
    state.tables.insert("data".to_owned(), vec![table(5)]);
    state.next_file_id = 2;
    says(
        &encode_state(&state).expect_err("counter is too low"),
        ErrorKind::Corruption,
        "manifest file-id high-water mark 2 is below live-object minimum 6",
    );

    let mut state = state_with_bucket();
    state.bucket_generations.insert("data".to_owned(), 0);
    says(
        &encode_state(&state).expect_err("generation is zero"),
        ErrorKind::Corruption,
        "manifest bucket generations are zero, duplicated, or above their high-water mark",
    );

    let mut state = state_with_bucket();
    state.tables.insert("data".to_owned(), vec![table(u64::MAX)]);
    says(
        &encode_state(&state).expect_err("no identifier is left"),
        ErrorKind::Corruption,
        "table id counter overflow",
    );
}

#[test]
fn refused_edits_name_bucket_and_table() {
    let state = state_with_bucket();
    let mut options = BucketOptions::default();
    options.block_bytes += 1;
    says(
        &create_bucket_edit(&state, "data", &options).expect_err("options differ"),
        ErrorKind::InvalidOptions,
        "existing bucket options do not match requested options",
    );
    says(
        &add_tables_edit(
            &state,
            &vec![("other".to_owned(), table(1))],
            Sequence::new(1),
        )
        .expect_err("bucket is missing"),
        ErrorKind::Corruption,
        "table references missing bucket: other",
    );

    let mut state = state_with_bucket();
    state.tables.insert("data".to_owned(), vec![table(1)]);
    let mut other = table(1);
    other.largest_user_key = vec![b'y'];
    says(
        &add_tables_edit(&state, &vec![("data".to_owned(), other)], Sequence::new(1))
            .expect_err("table differs"),
        ErrorKind::Corruption,
        "table id 1 has conflicting manifest properties",
    );

    let mut state = state_with_bucket();
    state.next_bucket_generation = u64::MAX;
    says(
        &create_bucket_edit(&state, "more", &BucketOptions::default())
            .expect_err("no generation is left"),
        ErrorKind::Corruption,
        "bucket-generation high-water mark overflow",
    );
}

#[test]
fn manifest_objects_are_bounded_and_readable() {
    let mut client = InMemoryObjectStore::new();
    client
        .put("manifest", b"short")
        .expect("damaged manifest is stored");
    says(
        &read_current(&mut client, "manifest").expect_err("manifest is damaged"),
        ErrorKind::InvalidFormat,
        "invalid manifest: short header",
    );
    client
        .put("manifest", &vec![0; MAX_MANIFEST_OBJECT_BYTES + 1])
        .expect("oversized manifest is stored");
    let text = format!(
        "manifest object manifest length {} exceeds maximum {}",
        MAX_MANIFEST_OBJECT_BYTES + 1,
        MAX_MANIFEST_OBJECT_BYTES
    );
    says(
        &read_current(&mut client, "manifest").expect_err("manifest is too long"),
        ErrorKind::Corruption,
        &text,
    );
    let mut bytes = encode_manifest_bytes(&ManifestState::empty()).expect("manifest encodes");
    bytes[10] ^= 1;
    says(
        &decode_manifest(&bytes).expect_err("checksum differs"),
        ErrorKind::Corruption,
        "manifest checksum mismatch",
    );
    says(
        &ManifestStore::open_or_create("db/MANIFEST", true, Some(bytes))
            .expect_err("checksum differs"),
        ErrorKind::Corruption,
        "manifest checksum mismatch",
    );
}

#[test]
fn exhausted_file_ids_are_reported() {
    let mut state = state_with_bucket();
    let (next, mut reserved) = reserve_edit(&state, 2).expect("two are reserved");
    assert_eq!(next.next_file_id, 3);
    assert_eq!(reserved.next_table_id().expect("first"), TableId(1));
    assert_eq!(reserved.next_file_id().expect("second"), 2);
    says(
        &reserved.next_file_id().expect_err("none is left"),
        ErrorKind::Corruption,
        "file-id reservation exhausted",
    );

    state.next_file_id = u64::MAX;
    match reserve_edit(&state, 1) {
        Ok(_) => panic!("no identifier is left"),
        Err(error) => says(
            &error,
            ErrorKind::Corruption,
            "file-id high-water mark overflow",
        ),
    }
    state.next_file_id = 4;
    state.tables.insert("data".to_owned(), vec![table(7)]);
    says(
        &state.next_table_id().expect_err("counter is too low"),
        ErrorKind::Corruption,
        "manifest file-id high-water mark 4 is below live-object minimum 8",
    );
}

#[test]
fn memory_store_names_what_it_refuses() {
    let mut store = InMemoryObjectStore::new();
    let etag = store.put("k", b"abcdef").expect("stored");
    says(
        &store.get_range("k", 4, 10, &etag).expect_err("range is long"),
        ErrorKind::Corruption,
        "object k short read for range 4..14",
    );
    says(
        &store
            .get_range("k", u64::MAX, 1, &etag)
            .expect_err("range overflows"),
        ErrorKind::InvalidOptions,
        "object range end overflow",
    );
    says(
        &store.get_range("no", 0, 1, &etag).expect_err("absent"),
        ErrorKind::ObjectVersionChanged,
        "no",
    );
    says(
        &store.list_page("", None, 0).expect_err("no limit"),
        ErrorKind::InvalidOptions,
        "object listing page limit must be non-zero",
    );
    says(
        &store.list_page("", None, usize::MAX).expect_err("limit overflows"),
        ErrorKind::InvalidOptions,
        "object listing page limit overflow",
    );
}

fn meta(key: &str) -> ObjectMeta {
    ObjectMeta {
        key: key.to_owned(),
        size: 1,
        etag: ETag::new("tag"),
        version: None,
    }
}

fn page(keys: &[&str], next_after: Option<&str>) -> ObjectListPage {
    ObjectListPage {
        objects: keys.iter().map(|key| meta(key)).collect(),
        next_after: next_after.map(str::to_owned),
    }
}

#[test]
fn refused_pages_quote_their_keys() {
    let refused = |after: Option<&str>, limit: usize, page: &ObjectListPage, text: &str| {
        says(
            &validate_object_list_page("a/", after, limit, page).expect_err("page is refused"),
            ErrorKind::Corruption,
            text,
        );
    };
    refused(
        None,
        1,
        &page(&["a/1", "a/2"], None),
        "object listing returned 2 entries for page limit 1",
    );
    refused(
        None,
        3,
        &page(&["b\n"], None),
        "object listing key \"b\\n\" does not start with prefix \"a/\"",
    );
    refused(
        Some("a/1"),
        3,
        &page(&["a/1"], None),
        "object listing key \"a/1\" does not advance exclusive cursor Some(\"a/1\")",
    );
    refused(
        None,
        3,
        &page(&["a/2", "a/1"], None),
        "object listing key \"a/1\" does not advance exclusive cursor Some(\"a/2\")",
    );
    refused(
        None,
        3,
        &page(&[], Some("a/1")),
        "object listing returned an empty page with a continuation cursor",
    );
    refused(
        None,
        3,
        &page(&["a/1", "a/2"], Some("a/1")),
        "object listing continuation \"a/1\" does not equal last key \"a/2\"",
    );
    assert!(validate_object_list_page("a/", Some("a/0"), 3, &page(&["a/1", "a/2"], Some("a/2")))
        .is_ok());
}

/// What a client does other than a store.
#[derive(Clone, Copy, PartialEq, Eq)]
enum Quirk {
    Honest,
    LosesHead,
    StaleHead,
    LosesBytes,
    WrongCreateTag,
    StoresMismatch,
    RejectsMatch,
    AcceptsStaleRange,
    OtherRangeError,
    Version,
    ForgetsListing,
    EmptyPage,
    KeepsDeleted,
}

struct QuirkyClient {
    inner: InMemoryObjectStore,
    quirk: Quirk,
    writes: u64,
}

impl QuirkyClient {
    fn new(quirk: Quirk) -> Self {
        Self {
            inner: InMemoryObjectStore::new(),
            quirk,
            writes: 0,
        }
    }
}

impl ObjectClient for QuirkyClient {
    fn get(&mut self, key: &str) -> Result<Option<Vec<u8>>> {
        if self.quirk == Quirk::LosesBytes {
            return Ok(None);
        }
        self.inner.get(key)
    }

    fn get_range(
        &mut self,
        key: &str,
        offset: u64,
        len: u64,
        expected_etag: &ETag,
    ) -> Result<Vec<u8>> {
        match self.inner.get_range(key, offset, len, expected_etag) {
            Err(Error::ObjectVersionChanged { .. }) if self.quirk == Quirk::AcceptsStaleRange => {
                Ok(Vec::new())
            }
            Err(Error::ObjectVersionChanged { .. }) if self.quirk == Quirk::OtherRangeError => {
                Err(Error::invalid_options("stale"))
            }
            other => other,
        }
    }

    fn put(&mut self, key: &str, bytes: &[u8]) -> Result<ETag> {
        self.writes += 1;
        self.inner.put(key, bytes)
    }

    fn delete(&mut self, key: &str) -> Result<()> {
        if self.quirk == Quirk::KeepsDeleted {
            return Ok(());
        }
        self.inner.delete(key)
    }

    fn list(&mut self, prefix: &str) -> Result<Vec<ObjectMeta>> {
        let mut listed = self.inner.list(prefix)?;
        if self.quirk == Quirk::ForgetsListing {
            listed = vec![meta("other")];
        }
        Ok(listed)
    }

    fn list_page(
        &mut self,
        prefix: &str,
        after: Option<&str>,
        limit: usize,
    ) -> Result<ObjectListPage> {
        if self.quirk == Quirk::EmptyPage {
            return Ok(page(&[], None));
        }
        self.inner.list_page(prefix, after, limit)
    }

    fn head(&mut self, key: &str) -> Result<Option<ObjectMeta>> {
        let found = self.inner.head(key)?;
        Ok(found.and_then(|mut meta| {
            match self.quirk {
                Quirk::LosesHead => return None,
                Quirk::StaleHead => meta.etag = ETag::new("stale"),
                Quirk::Version => meta.version = Some(ObjectVersion::new("v1")),
                _ => {}
            }
            Some(meta)
        }))
    }

    fn put_if(&mut self, key: &str, bytes: &[u8], precondition: Precondition) -> Result<PutIf> {
        self.writes += 1;
        let creates = matches!(&precondition, Precondition::IfNoneMatch);
        let outcome = self.inner.put_if(key, bytes, precondition)?;
        Ok(match outcome {
            PutIf::PreconditionFailed { .. } if creates && self.quirk == Quirk::WrongCreateTag => {
                PutIf::PreconditionFailed {
                    current: Some(ETag::new("wrong")),
                }
            }
            PutIf::PreconditionFailed { .. } if !creates && self.quirk == Quirk::StoresMismatch => {
                PutIf::Stored {
                    etag: ETag::new("new"),
                }
            }
            PutIf::Stored { .. } if !creates && self.quirk == Quirk::RejectsMatch => {
                PutIf::PreconditionFailed { current: None }
            }
            other => other,
        })
    }
}

#[test]
fn client_checks_report_operation_tag_and_error() {
    let report = |quirk: Quirk| {
        verify_object_client_contract_at_key(&mut QuirkyClient::new(quirk), "p/k")
            .expect_err("check fails")
    };
    assert!(
        verify_object_client_contract_at_key(&mut QuirkyClient::new(Quirk::Honest), "p/k").is_ok()
    );
    for (quirk, found) in [
        (Quirk::LosesHead, "lost head after put"),
        (Quirk::StaleHead, "observed stale head after put"),
        (Quirk::LosesBytes, "lost bytes after put"),
        (
            Quirk::WrongCreateTag,
            "returned wrong IfNoneMatch ETag: Some(ETag(\"wrong\"))",
        ),
        (
            Quirk::StoresMismatch,
            "stored despite a mismatched IfMatch ETag",
        ),
        (
            Quirk::RejectsMatch,
            "rejected a matching IfMatch ETag: None",
        ),
        (
            Quirk::AcceptsStaleRange,
            "accepted a stale ETag for a range read",
        ),
        (
            Quirk::OtherRangeError,
            "returned InvalidOptions { message: \"stale\" } instead of ObjectVersionChanged for a stale ETag",
        ),
    ] {
        says(
            &report(quirk),
            ErrorKind::Corruption,
            &format!("object client contract probe for p/k {found}"),
        );
    }
}

#[test]
fn reclamation_checks_report_operation_version_and_listing() {
    let report = |quirk: Quirk| {
        verify_object_store_reclamation_at_key(&mut QuirkyClient::new(quirk), "p/k")
            .expect_err("check fails")
    };
    assert!(
        verify_object_store_reclamation_at_key(&mut QuirkyClient::new(Quirk::Honest), "p/k").is_ok()
    );
    for (quirk, text) in [
        (
            Quirk::LosesHead,
            "object reclamation probe for p/k lost head after create",
        ),
        (
            Quirk::Version,
            "object reclamation probe for p/k observed provider version v1 after create",
        ),
        (
            Quirk::StaleHead,
            "object reclamation probe for p/k observed stale metadata after create",
        ),
        (
            Quirk::ForgetsListing,
            "object reclamation probe for p/k observed inconsistent listing after create: [ObjectMeta { key: \"other\", size: 1, etag: ETag(\"tag\"), version: None }]",
        ),
        (
            Quirk::EmptyPage,
            "object client contract probe for p/k observed inconsistent bounded listing after create: ObjectListPage { objects: [], next_after: None }",
        ),
        (
            Quirk::RejectsMatch,
            "object reclamation probe for p/k lost its overwrite fence: None",
        ),
        (
            Quirk::KeepsDeleted,
            "object reclamation probe for p/k remained observable after delete",
        ),
    ] {
        says(&report(quirk), ErrorKind::Corruption, text);
    }
    let mut taken = QuirkyClient::new(Quirk::Honest);
    taken.put("p/k", b"there").expect("object is there");
    says(
        &verify_object_store_reclamation_at_key(&mut taken, "p/k").expect_err("key exists"),
        ErrorKind::Corruption,
        "object reclamation probe key p/k unexpectedly exists",
    );
}

#[test]
fn backend_names_the_object_it_cannot_use() {
    let mut backend = ObjectStoreBackend::new(InMemoryObjectStore::new());
    let object = StorageObjectId::native_file(StorageObjectKind::Table, "db/t");
    backend.write_object(&object, b"one").expect("table is written");
    says(
        &backend.write_object(&object, b"two").expect_err("table exists"),
        ErrorKind::Corruption,
        "immutable object db/t already exists with different bytes",
    );
    let handle = backend
        .open_read(StorageObjectId::native_file(StorageObjectKind::Table, "db/t"))
        .expect("table opens");
    says(
        &handle
            .read_exact_at(&mut backend.client, 2, 2)
            .expect_err("read is long"),
        ErrorKind::Corruption,
        "object db/t short read",
    );
    backend
        .client
        .put("db/t", b"new")
        .expect("table is overwritten");
    says(
        &handle
            .read_exact_at(&mut backend.client, 0, 2)
            .expect_err("version changed"),
        ErrorKind::Corruption,
        "immutable object db/t changed or disappeared while being read",
    );
    match backend.open_read(StorageObjectId::native_file(
        StorageObjectKind::Table,
        "db/none",
    )) {
        Ok(_) => panic!("an absent table cannot be opened"),
        Err(error) => says(
            &error,
            ErrorKind::Corruption,
            "referenced object db/none cannot be opened",
        ),
    }
    let outside = StorageObjectId::native_file(StorageObjectKind::Table, "db/../t");
    says(
        &backend.write_object(&outside, b"x").expect_err("key is refused"),
        ErrorKind::InvalidOptions,
        "object-store prefix cannot contain a parent component",
    );
}

#[test]
fn listing_quotes_a_key_that_is_not_canonical() {
    let mut backend = ObjectStoreBackend::new(InMemoryObjectStore::new());
    backend
        .client
        .put("db//t", b"x")
        .expect("odd key is stored");
    let request = StorageObjectListRequest {
        kind: StorageObjectKind::Table,
        root: "db".to_owned(),
        extension: None,
    };
    match backend.list_objects(&request) {
        Ok(_) => panic!("a key that is not canonical cannot be listed"),
        Err(error) => says(
            &error,
            ErrorKind::Corruption,
            "object store returned non-canonical key \"db//t\"",
        ),
    }
}
