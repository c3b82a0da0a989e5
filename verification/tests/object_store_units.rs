use trine_kv::error::{Error, Result};
use trine_kv::object_store::backend::{ObjectStoreBackend, StorageObjectId, StorageObjectKind};
use trine_kv::object_store::keys::{canonical_object_key, canonical_object_prefix};
use trine_kv::object_store::listing::StorageObjectListRequest;
use trine_kv::object_store::memory::InMemoryObjectStore;
use trine_kv::object_store::reclamation::{
    qualify_object_store_reclamation, ObjectStoreReclamationAttestation,
    ObjectStoreReclamationEvidenceDigest,
};
use trine_kv::object_store::{
    ETag, ObjectClient, ObjectListPage, ObjectMeta, ObjectVersion, Precondition, PutIf,
};

#[test]
fn tests_object_keys_have_one_cross_platform_canonical_form() {
    assert_eq!(
        canonical_object_prefix(r"tenant\db//./tables").expect("Windows separators normalize"),
        "tenant/db/tables"
    );
    assert_eq!(
        canonical_object_prefix("/tenant/db/tables").expect("Unix separators normalize"),
        "tenant/db/tables"
    );
    assert_eq!(
        canonical_object_key(r"\tenant\db\MANIFEST")
            .expect("absolute Windows-style key normalizes"),
        "tenant/db/MANIFEST"
    );
    assert!(matches!(
        canonical_object_prefix("tenant/../other"),
        Err(Error::InvalidOptions { .. })
    ));
    assert!(matches!(
        canonical_object_prefix("tenant/\0/other"),
        Err(Error::InvalidOptions { .. })
    ));
}

/// Answers metadata of a fixed size, and range reads with fixed bytes.
#[derive(Debug, Default)]
struct FixedClient {
    size: u64,
    tag: &'static str,
    range: Option<&'static [u8]>,
    get_calls: u64,
    range_calls: u64,
}

impl FixedClient {
    fn oversized_head() -> Self {
        Self {
            size: u64::MAX,
            tag: "oversized",
            ..Self::default()
        }
    }

    fn short_range() -> Self {
        Self {
            size: 5,
            tag: "short-range",
            range: Some(b"abc"),
            ..Self::default()
        }
    }
}

impl ObjectClient for FixedClient {
    fn get(&mut self, _key: &str) -> Result<Option<Vec<u8>>> {
        self.get_calls += 1;
        Ok(Some(b"unreachable".to_vec()))
    }

    fn get_range(
        &mut self,
        _key: &str,
        _offset: u64,
        _len: u64,
        _expected_etag: &ETag,
    ) -> Result<Vec<u8>> {
        match self.range {
            Some(bytes) => {
                self.range_calls += 1;
                Ok(bytes.to_vec())
            }
            None => Err(Error::invalid_options("unexpected range read")),
        }
    }

    fn put(&mut self, _key: &str, _bytes: &[u8]) -> Result<ETag> {
        Err(Error::invalid_options("unexpected put"))
    }

    fn delete(&mut self, _key: &str) -> Result<()> {
        Err(Error::invalid_options("unexpected delete"))
    }

    fn list(&mut self, _prefix: &str) -> Result<Vec<ObjectMeta>> {
        Err(Error::invalid_options("unexpected list"))
    }

    fn list_page(
        &mut self,
        _prefix: &str,
        _after: Option<&str>,
        _limit: usize,
    ) -> Result<ObjectListPage> {
        Err(Error::invalid_options("unexpected list page"))
    }

    fn head(&mut self, key: &str) -> Result<Option<ObjectMeta>> {
        Ok(Some(ObjectMeta {
            key: key.to_owned(),
            size: self.size,
            etag: ETag::new(self.tag),
            version: None,
        }))
    }

    fn put_if(
        &mut self,
        _key: &str,
        _bytes: &[u8],
        _precondition: Precondition,
    ) -> Result<PutIf> {
        Err(Error::invalid_options("unexpected put_if"))
    }
}

struct ReclamationProbeClient {
    inner: InMemoryObjectStore,
    report_version: bool,
    retain_on_delete: bool,
    hide_head: bool,
}

impl ReclamationProbeClient {
    fn new(report_version: bool, retain_on_delete: bool, hide_head: bool) -> Self {
        Self {
            inner: InMemoryObjectStore::new(),
            report_version,
            retain_on_delete,
            hide_head,
        }
    }

    fn decorate_meta(&self, mut meta: ObjectMeta) -> ObjectMeta {
        if self.report_version {
            meta.version = Some(ObjectVersion::new("provider-version-1"));
        }
        meta
    }
}

impl ObjectClient for ReclamationProbeClient {
    fn get(&mut self, key: &str) -> Result<Option<Vec<u8>>> {
        self.inner.get(key)
    }

    fn get_range(
        &mut self,
        key: &str,
        offset: u64,
        len: u64,
        expected_etag: &ETag,
    ) -> Result<Vec<u8>> {
        self.inner.get_range(key, offset, len, expected_etag)
    }

    fn put(&mut self, key: &str, bytes: &[u8]) -> Result<ETag> {
        self.inner.put(key, bytes)
    }

    fn delete(&mut self, key: &str) -> Result<()> {
        if self.retain_on_delete {
            Ok(())
        } else {
            self.inner.delete(key)
        }
    }

    fn list(&mut self, prefix: &str) -> Result<Vec<ObjectMeta>> {
        let metas = self.inner.list(prefix)?;
        Ok(metas
            .into_iter()
            .map(|meta| self.decorate_meta(meta))
            .collect())
    }

    fn list_page(
        &mut self,
        prefix: &str,
        after: Option<&str>,
        limit: usize,
    ) -> Result<ObjectListPage> {
        let mut page = self.inner.list_page(prefix, after, limit)?;
        page.objects = page
            .objects
            .into_iter()
            .map(|meta| self.decorate_meta(meta))
            .collect();
        Ok(page)
    }

    fn head(&mut self, key: &str) -> Result<Option<ObjectMeta>> {
        if self.hide_head {
            return Ok(None);
        }
        let meta = self.inner.head(key)?;
        Ok(meta.map(|meta| self.decorate_meta(meta)))
    }

    fn put_if(&mut self, key: &str, bytes: &[u8], precondition: Precondition) -> Result<PutIf> {
        self.inner.put_if(key, bytes, precondition)
    }
}

#[test]
fn tests_put_then_get_roundtrips_and_overwrite_changes_etag() {
    let mut store = InMemoryObjectStore::new();
    let first = store.put("k", b"hello").unwrap();
    assert_eq!(
        store.get("k").unwrap().as_deref(),
        Some(b"hello".as_slice())
    );
    let second = store.put("k", b"world").unwrap();
    assert_ne!(first, second, "overwrite mints a new ETag");
    assert_eq!(
        store.get("k").unwrap().as_deref(),
        Some(b"world".as_slice())
    );
}

#[test]
fn tests_reclamation_qualification_requires_unversioned_observable_delete() {
    let evidence = ObjectStoreReclamationAttestation::new(
        ObjectStoreReclamationEvidenceDigest::for_bytes(b"test provider evidence"),
    );
    let mut qualified_client = ReclamationProbeClient::new(false, false, false);
    let qualification = qualify_object_store_reclamation(
        &mut qualified_client,
        1,
        "qualified-prefix",
        evidence,
        (10, 0),
        (11, 1),
    )
    .expect("unversioned strong delete qualifies");
    assert!(qualification.evidence_digest() == evidence.evidence_digest());
    assert!(qualification.matches_prefix("qualified-prefix"));
    assert!(!qualification.matches_prefix("different-prefix"));
    assert!(qualification.matches_client(1));
    assert!(!qualification.matches_client(2));

    let mut versioned_client = ReclamationProbeClient::new(true, false, false);
    assert!(matches!(
        qualify_object_store_reclamation(
            &mut versioned_client,
            3,
            "versioned-prefix",
            evidence,
            (10, 0),
            (11, 1),
        ),
        Err(Error::Corruption { .. })
    ));

    let mut sticky_client = ReclamationProbeClient::new(false, true, false);
    assert!(matches!(
        qualify_object_store_reclamation(
            &mut sticky_client,
            4,
            "sticky-prefix",
            evidence,
            (10, 0),
            (11, 1),
        ),
        Err(Error::Corruption { .. })
    ));
}

#[test]
fn tests_verified_delete_does_not_trust_head_absence_alone() {
    let mut client = ReclamationProbeClient::new(false, false, true);
    client
        .put("db/content-object", b"still present")
        .expect("seed hidden object");
    let mut backend = ObjectStoreBackend::new(client);
    let object =
        StorageObjectId::native_file(StorageObjectKind::ContentChunk, "db/content-object");

    assert!(matches!(
        backend.delete_unversioned_object_verified(&object),
        Err(Error::Corruption { .. })
    ));
    assert_eq!(
        backend
            .client
            .get("db/content-object")
            .expect("hidden object reads")
            .as_deref(),
        Some(b"still present".as_slice())
    );
}

#[test]
fn tests_get_absent_is_none_and_range_reads_a_window() {
    let mut store = InMemoryObjectStore::new();
    assert!(store.get("missing").unwrap().is_none());
    let etag = store.put("k", b"abcdef").unwrap();
    assert_eq!(store.get_range("k", 2, 3, &etag).unwrap(), b"cde");
    // Absent key and out-of-bounds range are both errors.
    assert!(matches!(
        store.get_range("missing", 0, 1, &etag),
        Err(Error::ObjectVersionChanged { .. })
    ));
    assert!(store.get_range("k", 4, 10, &etag).is_err());

    store
        .put("k", b"replacement")
        .expect("overwrite changes ETag");
    // A range read may not splice bytes from a newer object version.
    assert!(matches!(
        store.get_range("k", 0, 3, &etag),
        Err(Error::ObjectVersionChanged { .. })
    ));
}

#[test]
fn tests_delete_is_idempotent() {
    let mut store = InMemoryObjectStore::new();
    store.put("k", b"x").unwrap();
    store.delete("k").unwrap();
    assert!(store.get("k").unwrap().is_none());
    // Deleting an absent key still succeeds.
    store.delete("k").unwrap();
}

#[test]
fn tests_list_returns_prefix_matches_in_key_order() {
    let mut store = InMemoryObjectStore::new();
    store.put("wal/2", b"b").unwrap();
    store.put("wal/1", b"aa").unwrap();
    store.put("table/9", b"c").unwrap();
    let listed = store.list("wal/").unwrap();
    let keys: Vec<&str> = listed.iter().map(|meta| meta.key.as_str()).collect();
    assert_eq!(keys, ["wal/1", "wal/2"], "prefix-filtered, key-ordered");
    assert_eq!(listed[0].size, 2);
    assert_eq!(listed[1].size, 1);
}

#[test]
fn tests_list_page_uses_exclusive_continuation_without_duplicates() {
    let mut store = InMemoryObjectStore::new();
    for key in ["wal/1", "wal/2", "wal/3"] {
        store.put(key, key.as_bytes()).unwrap();
    }
    let first = store.list_page("wal/", None, 2).unwrap();
    assert_eq!(
        first
            .objects
            .iter()
            .map(|meta| meta.key.as_str())
            .collect::<Vec<_>>(),
        ["wal/1", "wal/2"]
    );
    let second = store
        .list_page("wal/", first.next_after.as_deref(), 2)
        .unwrap();
    assert_eq!(
        second
            .objects
            .iter()
            .map(|meta| meta.key.as_str())
            .collect::<Vec<_>>(),
        ["wal/3"]
    );
    assert!(second.next_after.is_none());
}

#[test]
fn tests_head_returns_metadata_without_bytes_and_none_when_absent() {
    let mut store = InMemoryObjectStore::new();
    assert!(store.head("k").unwrap().is_none());
    let etag = store.put("k", b"hello").unwrap();
    let meta = store.head("k").unwrap().expect("present");
    assert_eq!(meta.key, "k");
    assert_eq!(meta.size, 5);
    assert_eq!(meta.etag, etag);
}

#[test]
fn tests_put_if_none_match_creates_only_when_absent() {
    let mut store = InMemoryObjectStore::new();
    let created = store
        .put_if("k", b"v1", Precondition::IfNoneMatch)
        .unwrap();
    let etag = match created {
        PutIf::Stored { etag } => etag,
        PutIf::PreconditionFailed { .. } => panic!("create should succeed when absent"),
    };
    // A second create is refused and reports the current ETag.
    match store
        .put_if("k", b"v2", Precondition::IfNoneMatch)
        .unwrap()
    {
        PutIf::PreconditionFailed { current } => assert_eq!(current, Some(etag)),
        PutIf::Stored { .. } => panic!("create should fail when present"),
    }
    assert_eq!(
        store.get("k").unwrap().as_deref(),
        Some(b"v1".as_slice()),
        "refused create left the object unchanged"
    );
}

#[test]
fn tests_put_if_match_is_a_compare_and_swap() {
    let mut store = InMemoryObjectStore::new();
    let v1 = store.put("k", b"v1").unwrap();

    // CAS with the current ETag wins and advances the ETag.
    let v2 = match store
        .put_if("k", b"v2", Precondition::IfMatch(v1.clone()))
        .unwrap()
    {
        PutIf::Stored { etag } => etag,
        PutIf::PreconditionFailed { .. } => panic!("CAS with current ETag should win"),
    };
    assert_ne!(v1, v2);

    // A second CAS with the now-stale ETag loses and reports the current one.
    match store
        .put_if("k", b"v3", Precondition::IfMatch(v1))
        .unwrap()
    {
        PutIf::PreconditionFailed { current } => assert_eq!(current, Some(v2)),
        PutIf::Stored { .. } => panic!("CAS with stale ETag should lose"),
    }
    assert_eq!(
        store.get("k").unwrap().as_deref(),
        Some(b"v2".as_slice()),
        "the losing CAS left v2 in place"
    );
}

#[test]
fn tests_put_if_match_on_absent_object_fails() {
    let mut store = InMemoryObjectStore::new();
    let phantom = ETag::new("etag-phantom");
    match store
        .put_if("k", b"v", Precondition::IfMatch(phantom))
        .unwrap()
    {
        PutIf::PreconditionFailed { current } => assert_eq!(current, None),
        PutIf::Stored { .. } => panic!("IfMatch cannot match a missing object"),
    }
}

#[test]
fn tests_object_store_backend_round_trips_an_object() {
    let mut backend = ObjectStoreBackend::new(InMemoryObjectStore::new());
    let id = StorageObjectId::native_file(StorageObjectKind::ContentChunk, "/db/0001.trinec");

    backend.write_object(&id, b"hello world").unwrap();

    // Whole-object read.
    assert_eq!(
        backend.read_object_bytes(&id).unwrap().as_deref(),
        Some(b"hello world".as_slice())
    );

    // Random-access read via the ranged read handle.
    let object = backend.open_read(id.clone()).unwrap();
    assert_eq!(object.len(), 11);
    let window = object.read_exact_at(&mut backend.client, 6, 5).unwrap();
    assert_eq!(&window, b"world");

    // Delete, then it is gone.
    backend.delete_object(&id).unwrap();
    assert!(backend.read_object_bytes(&id).unwrap().is_none());
}

#[test]
fn tests_immutable_table_object_cannot_be_overwritten_or_deleted() {
    let mut backend = ObjectStoreBackend::new(InMemoryObjectStore::new());
    let id = StorageObjectId::native_file(StorageObjectKind::Table, "/db/0001.trinet");

    backend
        .write_object(&id, b"first")
        .expect("initial immutable write");
    backend
        .write_object(&id, b"first")
        .expect("identical retry is idempotent");
    let error = backend
        .write_object(&id, b"different")
        .expect_err("different bytes cannot replace immutable object");
    assert!(matches!(error, Error::Corruption { .. }));
    assert!(
        backend.delete_object(&id).is_err(),
        "table deletion requires a reader-retirement protocol"
    );
    assert_eq!(
        backend.client.get("db/0001.trinet").unwrap().as_deref(),
        Some(b"first".as_slice())
    );
}

#[test]
fn tests_immutable_content_chunk_rejects_conflicting_retry() {
    let mut backend = ObjectStoreBackend::new(InMemoryObjectStore::new());
    let id = StorageObjectId::native_file(
        StorageObjectKind::ContentChunk,
        "/db/content/upload/partial-0001-0007.trinec",
    );

    backend
        .write_object(&id, b"first")
        .expect("initial immutable chunk write");
    backend
        .write_object(&id, b"first")
        .expect("identical chunk retry is idempotent");
    assert!(matches!(
        backend.write_object(&id, b"stale"),
        Err(Error::Corruption { .. })
    ));
}

#[test]
fn tests_object_store_backend_rejects_oversized_head_before_get() {
    let mut backend = ObjectStoreBackend::new(FixedClient::oversized_head());
    let id = StorageObjectId::native_file(StorageObjectKind::Table, "/db/huge.trinet");

    let error = backend
        .read_object_bytes(&id)
        .expect_err("oversized head fails");
    assert!(error.text().contains("exceeds maximum"));
    assert_eq!(
        backend.client.get_calls, 0,
        "oversized object should fail on HEAD before GET"
    );

    let error = match backend.open_read(id) {
        Ok(_) => panic!("oversized head fails"),
        Err(error) => error,
    };
    assert!(error.text().contains("exceeds maximum"));
    assert_eq!(
        backend.client.get_calls, 0,
        "open_read should also fail on HEAD before GET"
    );
}

#[test]
fn tests_object_store_backend_rejects_short_range_without_whole_get() {
    let mut backend = ObjectStoreBackend::new(FixedClient::short_range());
    let id = StorageObjectId::native_file(StorageObjectKind::Table, "/db/short.trinet");

    let error = backend
        .read_object_bytes(&id)
        .expect_err("short range fails");
    assert!(error.text().contains("declared length"));
    assert_eq!(
        backend.client.get_calls, 0,
        "bounded range reads should not fall back to whole-object GET"
    );

    let id = StorageObjectId::native_file(StorageObjectKind::Table, "/db/short.trinet");
    let object = match backend.open_read(id) {
        Ok(object) => object,
        Err(_) => panic!("HEAD-only open succeeds"),
    };
    assert_eq!(
        backend.client.range_calls, 1,
        "open itself performs no additional range request"
    );
    let error = object
        .read_exact_at(&mut backend.client, 0, 5)
        .expect_err("short ranged handle read fails");
    assert!(error.text().contains("requested length"));
    assert_eq!(backend.client.range_calls, 2);
}

#[test]
fn tests_object_store_backend_lists_direct_children_by_extension() {
    let mut backend = ObjectStoreBackend::new(InMemoryObjectStore::new());
    for key in [
        "/db/0002.trinet",
        "/db/0001.trinet",
        "/db/MANIFEST",        // wrong extension
        "/db/sub/9999.trinet", // not a direct child of /db
    ] {
        backend
            .write_object(
                &StorageObjectId::native_file(StorageObjectKind::Table, key),
                b"x",
            )
            .unwrap();
    }

    let listed = backend
        .list_objects(
            &StorageObjectListRequest::native_file(StorageObjectKind::Table, "/db")
                .with_file_extension("trinet"),
        )
        .unwrap();
    let paths: Vec<String> = listed.iter().map(|id| id.path().to_string()).collect();
    assert_eq!(
        paths,
        ["db/0001.trinet", "db/0002.trinet"],
        "only direct .trinet children, in key order"
    );
}
