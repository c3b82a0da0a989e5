use trine_kv::blob::ValueRef;
use trine_kv::internal_key::{InternalKey, ValueKind};
use trine_kv::memtable::Memtable;
use trine_kv::types::Sequence;

#[test]
fn estimated_bytes_tracks_insert_and_replace() {
    let mut memtable = Memtable::default();
    let key = InternalKey::new(b"k".to_vec(), Sequence::new(1), ValueKind::Put, 0);

    memtable.insert(key.clone(), Some(ValueRef::Inline(b"v1".to_vec())));
    let first_bytes = memtable.estimated_bytes();
    assert!(first_bytes > 0);

    memtable.insert(key, Some(ValueRef::Inline(b"larger".to_vec())));
    let replaced_bytes = memtable.estimated_bytes();

    assert!(replaced_bytes > first_bytes);
    assert!(
        replaced_bytes < first_bytes.saturating_mul(2),
        "replacement should adjust the existing entry estimate"
    );
}

#[test]
fn entries_are_charged_with_key_value_and_overhead() {
    let mut memtable = Memtable::new();
    assert!(memtable.is_empty());
    let key = InternalKey::new(b"key".to_vec(), Sequence::new(1), ValueKind::Put, 0);
    memtable.insert(key, Some(ValueRef::Inline(b"value".to_vec())));
    assert_eq!(memtable.estimated_bytes(), 3 + 5 + 16);
    let gone = InternalKey::new(b"key".to_vec(), Sequence::new(2), ValueKind::PointDelete, 0);
    memtable.insert(gone, None);
    assert_eq!(memtable.estimated_bytes(), 24 + 3 + 16);
    let entries = memtable.read_entries();
    assert_eq!(entries.len(), 2);
    // The newer record of a key comes first.
    assert_eq!(entries.get(0).key.sequence(), Sequence::new(2));
    assert_eq!(entries.newest_visible(b"key", Sequence::new(1)), Some(1));
    assert_eq!(entries.newest_visible(b"key", Sequence::zero()), None);
}
