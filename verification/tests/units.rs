use std::sync::Arc;

use bytes::Bytes;
use trine_kv::blob::{BlobIndex, ValueRef};
use trine_kv::bytes_order::{bytes_before, order_bytes, starts_with, KeyOrder};
use trine_kv::checksum::crc32c;
use trine_kv::codec::CodecId;
use trine_kv::error::{Error, ErrorKind};
use trine_kv::internal_key::{InternalKey, ValueKind};
use trine_kv::keyspace::{Keyspace, KeyspaceName};
use trine_kv::limits;
use trine_kv::lsm::read::read_visible_point_values_in_snapshot;
use trine_kv::lsm::tree::LsmTree;
use trine_kv::manifest::decode::decode_state;
use trine_kv::manifest::encode::{put_bytes, put_u32, put_u64};
use trine_kv::memtable::{MemtableEntry, RecordRun};
use trine_kv::mvcc::Visibility;
use trine_kv::object_store::backend::{ObjectStoreBackend, StorageObjectId, StorageObjectKind};
use trine_kv::object_store::contract::{
    object_client_contract_probe_key_for_role, validate_object_list_page,
    verify_object_client_contract,
};
use trine_kv::object_store::listing::{path_matches_extension, StorageObjectListRequest};
use trine_kv::object_store::memory::InMemoryObjectStore;
use trine_kv::object_store::reclamation::{
    object_store_reclamation_namespace_digest, ObjectStoreReclamationEvidenceDigest,
};
use trine_kv::object_store::{
    ETag, ObjectClient, ObjectListPage, ObjectMeta, ObjectVersion, Precondition, PutIf,
};
use trine_kv::options::{
    BlobGcRatio, BucketOptions, CompressionProfile, DbOptions, DurabilityMode,
    HostStorageBackend, StorageMode, WalShardPolicy, WriteOptions,
};
use trine_kv::point_value::{PointValue, PointValueSource};
use trine_kv::prefix::PrefixExtractor;
use trine_kv::range_tombstone::{RangeTombstone, RangeTombstoneIndex};
use trine_kv::runtime::{RuntimeMode, RuntimeOptions};
use trine_kv::selector::{
    prefix_successor, selector_query_range, Direction, ForwardKeyState, ReverseKeyState,
    ScanSelector,
};
use trine_kv::snapshot::Snapshot;
use trine_kv::table::{Table, TableId, TableLevel, TableProperties};
use trine_kv::types::{KeyBound, KeyRange, Sequence};
use trine_kv::write_batch::BatchOperation;

#[test]
fn crc32c_gives_the_standard_check_value() {
    assert_eq!(crc32c(b"123456789"), 0xE306_9283);
    assert_eq!(crc32c(b""), 0);
}

#[test]
fn evidence_digest_is_a_tagged_sha256() {
    let expected: [u8; 32] = [
        0xba, 0x78, 0x16, 0xbf, 0x8f, 0x01, 0xcf, 0xea, 0x41, 0x41, 0x40, 0xde, 0x5d, 0xae, 0x22,
        0x23, 0xb0, 0x03, 0x61, 0xa3, 0x96, 0x17, 0x7a, 0x9c, 0xb4, 0x10, 0xff, 0x61, 0xf2, 0x00,
        0x15, 0xad,
    ];
    let digest = ObjectStoreReclamationEvidenceDigest::for_bytes(b"abc");
    let bytes = digest.to_bytes();
    assert_eq!(bytes[0], 1);
    assert_eq!(&bytes[1..], &expected);
    assert!(ObjectStoreReclamationEvidenceDigest::from_bytes(bytes).is_ok());
    let mut unknown = bytes;
    unknown[0] = 2;
    match ObjectStoreReclamationEvidenceDigest::from_bytes(unknown) {
        Ok(_) => panic!("unknown tag must be rejected"),
        Err(error) => assert_eq!(error.kind(), ErrorKind::InvalidFormat),
    }
    let one = object_store_reclamation_namespace_digest("tenant/db").expect("digest");
    let same = object_store_reclamation_namespace_digest("/tenant//db/").expect("digest");
    let other = object_store_reclamation_namespace_digest("tenant/other").expect("digest");
    assert_eq!(one, same);
    assert_ne!(one, other);
}

#[test]
fn bucket_names_must_be_text() {
    let mut payload = Vec::new();
    put_u64(&mut payload, 0);
    put_u32(&mut payload, 1);
    put_bytes(&mut payload, &[0xff, 0xfe]).expect("bytes encode");
    let error = decode_state(&payload).expect_err("name is not UTF-8");
    assert_eq!(error.kind(), ErrorKind::InvalidFormat);
    assert!(error.text().contains("UTF-8"));
}

#[test]
fn shared_values_are_windows_of_their_block() {
    let block = Bytes::from_static(b"0123456789");
    let value = PointValue::from_shared(block.clone(), 2..5).expect("inside the block");
    assert_eq!(value.as_bytes(), b"234");
    assert_eq!(value.clone().into_vec(), b"234".to_vec());
    assert_eq!(value.into_value(), b"234".to_vec());
    assert!(PointValue::from_shared(block.clone(), 8..11).is_err());
    let source = PointValueSource::from_shared(block, 0..1).expect("inside the block");
    let value = source.into_point_value(None).expect("no blob is needed");
    assert_eq!(value.as_bytes(), b"0");
    let owned = PointValue::from_owned(b"own".to_vec());
    assert_eq!(owned.as_bytes(), b"own");
}

#[test]
fn blob_values_need_their_bytes() {
    let place = || ValueRef::BlobIndex(BlobIndex {
        file_id: 3,
        offset: 16,
        value_len: 5,
    });
    assert_eq!(place().len(), 5);
    let missing = PointValueSource::from_value_ref(place())
        .into_point_value(None)
        .expect_err("no bytes");
    assert_eq!(missing.kind(), ErrorKind::Corruption);
    let value = PointValueSource::from_value_ref(place())
        .into_point_value(Some(b"bytes".to_vec()))
        .expect("bytes");
    assert_eq!(value.as_bytes(), b"bytes");
}

#[test]
fn keys_are_ordered_bytewise() {
    assert_eq!(order_bytes(b"a", b"ab"), KeyOrder::Less);
    assert_eq!(order_bytes(b"b", b"ab"), KeyOrder::Greater);
    assert_eq!(order_bytes(b"ab", b"ab"), KeyOrder::Equal);
    assert!(bytes_before(&[0x7f], &[0x80]));
    assert!(starts_with(b"abc", b"ab"));
    assert!(!starts_with(b"a", b"ab"));
    let newer = InternalKey::new(b"k".to_vec(), Sequence::new(2), ValueKind::Put, 0);
    let older = InternalKey::new(b"k".to_vec(), Sequence::new(1), ValueKind::Put, 0);
    assert!(newer.comes_before(&older));
}

#[test]
fn ranges_contain_and_overlap() {
    let range = KeyRange::half_open(b"b".to_vec(), b"d".to_vec());
    assert!(range.contains(b"b"));
    assert!(range.contains(b"c"));
    assert!(!range.contains(b"d"));
    assert!(KeyRange::all().contains(b""));
    assert!(range.overlaps(&KeyRange::half_open(b"c".to_vec(), b"z".to_vec())));
    assert!(!range.overlaps(&KeyRange::half_open(b"d".to_vec(), b"z".to_vec())));
    let closed = KeyRange {
        start: KeyBound::Excluded(b"a".to_vec()),
        end: KeyBound::Included(b"d".to_vec()),
    };
    assert!(!closed.contains(b"a"));
    assert!(closed.contains(b"d"));
    assert!(closed.overlaps(&KeyRange::half_open(b"d".to_vec(), b"z".to_vec())));
}

#[test]
fn selectors_place_keys() {
    let prefix = ScanSelector::Prefix(b"user:".to_vec());
    assert!(prefix.contains_key(b"user:1"));
    assert_eq!(prefix.forward_key_state(b"user"), ForwardKeyState::Before);
    assert_eq!(prefix.forward_key_state(b"user:"), ForwardKeyState::Match);
    assert_eq!(prefix.forward_key_state(b"v"), ForwardKeyState::After);
    assert_eq!(prefix.reverse_key_state(b"v"), ReverseKeyState::Above);
    assert_eq!(prefix.reverse_key_state(b"user:z"), ReverseKeyState::Match);
    assert_eq!(prefix.reverse_key_state(b"a"), ReverseKeyState::Below);
    assert_eq!(prefix.prefix(), Some(b"user:".as_slice()));
    assert_eq!(prefix_successor(b"ab"), Some(b"ac".to_vec()));
    assert_eq!(prefix_successor(&[0x61, 0xff]), Some(vec![0x62]));
    assert_eq!(prefix_successor(&[0xff, 0xff]), None);
    assert_eq!(
        selector_query_range(&prefix),
        KeyRange {
            start: KeyBound::Included(b"user:".to_vec()),
            end: KeyBound::Excluded(b"user;".to_vec()),
        }
    );
}

#[test]
fn prefix_extractors_take_prefixes() {
    let fixed = PrefixExtractor::FixedLen(3);
    assert_eq!(fixed.extract(b"abcd"), Some(b"abc".as_slice()));
    assert_eq!(fixed.extract(b"ab"), None);
    let separator = PrefixExtractor::Separator(b':');
    assert_eq!(separator.extract(b"user:1:x"), Some(b"user:".as_slice()));
    assert_eq!(separator.extract(b"user"), None);
    assert_eq!(PrefixExtractor::Disabled.extract(b"abc"), None);
    assert!(!PrefixExtractor::Disabled.is_enabled());
    assert!(fixed.is_enabled());
    assert!(fixed.supports_prefix_filter());
    assert_eq!(
        separator.query_filter_prefix(b"user:1"),
        Some(b"user:".as_slice())
    );
}

#[test]
fn range_deletions_cover_older_points_only() {
    let tombstone = RangeTombstone {
        range: KeyRange::half_open(b"b".to_vec(), b"d".to_vec()),
        sequence: Sequence::new(5),
        batch_index: 2,
    };
    let at = |point: u64, index: u32, read: u64| {
        tombstone.covers_visible_point(b"c", Sequence::new(point), index, Sequence::new(read))
    };
    assert!(at(4, 9, 5));
    assert!(at(5, 1, 5));
    assert!(!at(5, 2, 5));
    assert!(!at(6, 0, 7));
    assert!(!at(4, 0, 4));
    let index = RangeTombstoneIndex::new(vec![tombstone]);
    assert!(index.deletes_key_after(b"c", Sequence::new(4)));
    assert!(!index.deletes_key_after(b"c", Sequence::new(5)));
    assert!(!index.deletes_key_after(b"d", Sequence::new(4)));
    assert_eq!(index.overlapping_range(&KeyRange::all()).len(), 1);
    assert!(Visibility::new(Sequence::new(5)).can_see(Sequence::new(5)));
    assert!(!Visibility::new(Sequence::new(5)).can_see(Sequence::new(6)));
}

#[test]
fn limits_are_enforced() {
    assert!(limits::ensure_invalid_format_len(3, 3, "field").is_ok());
    let error = limits::ensure_invalid_format_len(4, 3, "field").expect_err("too long");
    assert_eq!(error.kind(), ErrorKind::InvalidFormat);
    let error = limits::ensure_corruption_len(4, 3, "field").expect_err("too long");
    assert_eq!(error.kind(), ErrorKind::Corruption);
    assert_eq!(
        limits::checked_add_invalid_format(1, 2, "sum").expect("fits"),
        3
    );
    let error = limits::checked_add_invalid_format(usize::MAX, 1, "sum").expect_err("overflows");
    assert_eq!(error.text(), "sum overflows");
    assert_eq!(limits::MAX_USER_KEY_BYTES, 8_388_544);
}

#[test]
fn options_keep_what_they_are_given() {
    let options = DbOptions::persistent("/db".to_string())
        .with_durability(DurabilityMode::SyncAllStrict)
        .with_keep_last_read_versions(7)
        .with_wal_shard_count(3)
        .with_max_key_bytes(10);
    assert_eq!(options.storage_mode.persistent_path(), Some("/db"));
    assert_eq!(options.durability, DurabilityMode::SyncAllStrict);
    assert_eq!(options.keep_last_read_versions, 7);
    assert_eq!(options.wal_shards, WalShardPolicy::Fixed(3));
    assert_eq!(options.max_key_bytes, 10);
    assert!(options.read_only().read_only);
    assert_eq!(DbOptions::memory().storage_mode, StorageMode::InMemory);
    assert!(DbOptions::object_store()
        .storage_mode
        .is_object_store_persistent());
    assert_eq!(DurabilityMode::SyncData.as_str(), "sync-data");
    assert_eq!(CompressionProfile::Fast.codec_id(), CodecId::FastLz4Block);
    assert_eq!(WriteOptions::default(), WriteOptions::buffered());
    assert!(BlobGcRatio::half().should_collect(50, 100));
    assert!(!BlobGcRatio::half().should_collect(49, 100));
    assert_eq!(BlobGcRatio::half().millionths(), 500_000);
    assert_eq!(RuntimeOptions::inline().mode, RuntimeMode::Inline);
    assert_eq!(RuntimeOptions::platform_io().mode, RuntimeMode::PlatformIo);
    assert_eq!(
        BlobGcRatio::from_millionths(250_000).millionths(),
        250_000
    );
    assert_eq!(
        DbOptions::memory()
            .with_wal_shards(WalShardPolicy::Auto)
            .with_max_value_bytes(9)
            .max_value_bytes,
        9
    );
}

#[test]
fn keyspaces_read_their_tree_and_write_their_bucket() {
    let keyspace = Keyspace::new(
        KeyspaceName::new("users".to_string()),
        BucketOptions::default(),
    );
    assert_eq!(keyspace.name().as_str(), "users");
    let write = keyspace.insert(b"k".to_vec(), b"v".to_vec());
    assert_eq!(write.options, WriteOptions::default());
    let mut tree = LsmTree::new(BucketOptions::default(), Vec::new()).expect("tree builds");
    for operation in write.operations {
        match &operation {
            BatchOperation::Put { bucket, .. } => assert_eq!(bucket, "users"),
            _ => panic!("insert is a put"),
        }
        tree.apply_operation(operation, Sequence::new(1), 0);
    }
    for operation in keyspace.remove(b"k".to_vec()).operations {
        tree.apply_operation(operation, Sequence::new(2), 0);
    }
    let found = keyspace
        .get_at(&tree, &Snapshot::new(Sequence::new(1)), b"k")
        .expect("reads")
        .expect("visible");
    let value = found.into_point_value(None).expect("inline");
    assert_eq!(value.as_bytes(), b"v");
    assert!(keyspace
        .get(&tree, Sequence::new(2), b"k")
        .expect("reads")
        .is_none());
    let error = keyspace
        .range(true, KeyRange::all())
        .expect_err("unsupported");
    assert_eq!(error.kind(), ErrorKind::Unsupported);
    let error = keyspace
        .prefix(false, b"k".to_vec())
        .expect_err("closed database");
    assert!(matches!(error, Error::Closed));
    let mut rows = Keyspace::empty_iter(Direction::Reverse);
    assert_eq!(rows.direction(), Direction::Reverse);
    assert!(rows.next_sync().is_none());
}

#[test]
fn writes_do_not_reach_snapshots() {
    let mut tree = LsmTree::new(BucketOptions::default(), Vec::new()).expect("tree builds");
    let put = |key: &[u8]| BatchOperation::Put {
        bucket: "default".to_string(),
        key: key.to_vec(),
        value: b"v".to_vec(),
    };
    tree.apply_operation(put(b"a"), Sequence::new(1), 0);
    let snapshot = tree.point_read_snapshot(Sequence::new(9));
    tree.apply_operation(put(b"b"), Sequence::new(2), 0);
    tree.apply_operation(put(b"c"), Sequence::new(3), 0);
    let keys = vec![b"a".to_vec(), b"b".to_vec(), b"a".to_vec()];
    let values = read_visible_point_values_in_snapshot(&snapshot, &keys, Sequence::new(9))
        .expect("reads");
    assert!(values[0].is_some());
    assert!(values[1].is_none());
    assert!(values[2].is_some());
    for key in [b"a", b"b", b"c"] {
        let value = tree
            .read_visible_point(key, Sequence::new(9), None)
            .expect("reads");
        assert_eq!(value, Some(b"v".to_vec()));
    }
}

#[test]
fn flushed_tables_serve_reads() {
    let mut tree = LsmTree::new(BucketOptions::default(), Vec::new()).expect("tree builds");
    tree.apply_operation(
        BatchOperation::Put {
            bucket: "default".to_string(),
            key: b"k".to_vec(),
            value: b"v".to_vec(),
        },
        Sequence::new(1),
        0,
    );
    assert!(tree
        .freeze_active_memtable(Sequence::new(1))
        .expect("freezes"));
    let inputs = tree.prepare_flush_inputs();
    assert_eq!(inputs.len(), 1);
    let mut records = RecordRun::new();
    records.insert(MemtableEntry {
        key: InternalKey::new(b"k".to_vec(), Sequence::new(1), ValueKind::Put, 0),
        value: Some(ValueRef::Inline(b"v".to_vec())),
    });
    let table = Table::new(
        TableProperties {
            id: TableId(1),
            level: TableLevel::zero(),
            smallest_user_key: b"k".to_vec(),
            largest_user_key: b"k".to_vec(),
            smallest_sequence: Sequence::new(1),
            largest_sequence: Sequence::new(1),
            codec: CodecId::Uncompressed,
            blob_file_ids: Vec::new(),
            blob_references: Vec::new(),
        },
        records,
        Vec::new(),
    )
    .expect("table is sound");
    tree.install_flush(&inputs[0], Arc::new(table))
        .expect("installs");
    assert!(!tree.has_immutable_memtable_fast());
    assert_eq!(tree.l0_table_count(), 1);
    assert_eq!(
        tree.read_visible_point(b"k", Sequence::new(1), None)
            .expect("reads"),
        Some(b"v".to_vec())
    );
    assert!(tree.install_flush(&inputs[0], Arc::clone(&tree.tables_snapshot()[0])).is_err());
}

#[test]
fn in_memory_store_passes_the_client_check() {
    let mut store = InMemoryObjectStore::new();
    verify_object_client_contract(&mut store, "tenant/db", 12, 34).expect("store is sound");
    assert!(store.list("").expect("lists").is_empty());
    let key = object_client_contract_probe_key_for_role("tenant/db", "health", 12, 34)
        .expect("key");
    assert!(key.starts_with("tenant/db/"));
    assert!(object_client_contract_probe_key_for_role("../db", "health", 12, 34).is_err());
}

#[test]
fn listing_pages_are_validated() {
    let mut store = InMemoryObjectStore::new();
    for key in ["db/a", "db/b", "other"] {
        store.put(key, b"x").expect("writes");
    }
    let page = store.list_page("db/", None, 1).expect("lists");
    validate_object_list_page("db/", None, 1, &page).expect("sound");
    let error = validate_object_list_page("db/", Some("db/a"), 1, &page)
        .expect_err("continuation is exclusive");
    assert_eq!(error.kind(), ErrorKind::Corruption);
    let error = validate_object_list_page("db/", None, 0, &page).expect_err("empty pages");
    assert_eq!(error.kind(), ErrorKind::InvalidOptions);
    assert!(path_matches_extension("db/1.tbl", Some("tbl")));
    assert!(!path_matches_extension("db/1.tbl", Some("blob")));
    assert!(path_matches_extension("db/1", None));
    let mut backend = ObjectStoreBackend::new(store);
    let listed = backend
        .list_objects_page(
            &StorageObjectListRequest::native_file(StorageObjectKind::Table, "db"),
            Some("db/a"),
            5,
        )
        .expect("lists");
    assert_eq!(listed.objects.len(), 1);
    let object = StorageObjectId::native_file(StorageObjectKind::Manifest, "a/../b");
    let error = backend.write_object(&object, b"x").expect_err("bad key");
    assert_eq!(error.kind(), ErrorKind::InvalidOptions);
}

#[test]
fn cloned_options_equal_their_originals() {
    let options = DbOptions::persistent("/db".to_string());
    let copy = options.clone();
    assert_eq!(copy, options);
    assert_ne!(copy, DbOptions::memory());

    for mode in [
        StorageMode::InMemory,
        StorageMode::Persistent {
            path: "/data".to_string(),
        },
        StorageMode::HostPersistent {
            backend: HostStorageBackend::Wasi {
                path: "/preopened".to_string(),
            },
        },
        StorageMode::HostPersistent {
            backend: HostStorageBackend::ObjectStore,
        },
    ] {
        assert_eq!(mode.clone(), mode);
    }
}

#[test]
fn cloned_object_store_values_equal_their_originals() {
    let etag = ETag::new("tag");
    for precondition in [
        Precondition::IfNoneMatch,
        Precondition::IfMatch(etag.clone()),
    ] {
        assert_eq!(precondition.clone(), precondition);
    }
    for outcome in [
        PutIf::Stored { etag: etag.clone() },
        PutIf::PreconditionFailed {
            current: Some(etag.clone()),
        },
        PutIf::PreconditionFailed { current: None },
    ] {
        assert_eq!(outcome.clone(), outcome);
    }
    let meta = ObjectMeta {
        key: "wal/1".to_string(),
        size: 3,
        etag,
        version: Some(ObjectVersion::new("v1")),
    };
    assert_eq!(meta.clone(), meta);
    let page = ObjectListPage {
        objects: vec![meta.clone(), meta],
        next_after: Some("wal/1".to_string()),
    };
    assert_eq!(page.clone(), page);
    assert_eq!(page.clone().objects.len(), 2);
}

#[test]
fn a_cloned_keyspace_has_the_name_and_options_of_its_original() {
    let keyspace = Keyspace::new(
        KeyspaceName::from("users"),
        BucketOptions {
            prefix_extractor: PrefixExtractor::Custom("tenant".to_string()),
            ..BucketOptions::default()
        },
    );
    let copy = keyspace.clone();
    assert_eq!(copy.name(), keyspace.name());
    assert_eq!(copy.options(), keyspace.options());
    assert_eq!(
        copy.options().prefix_extractor,
        PrefixExtractor::Custom("tenant".to_string())
    );
}
