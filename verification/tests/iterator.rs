use std::sync::Arc;

use trine_kv::blob::ValueRef;
use trine_kv::error::ErrorKind;
use trine_kv::internal_key::{InternalKey, ValueKind};
use trine_kv::iterator::{Iter, RecordSource, ScanSourceInput, SourceHeap, SourceHeapEntry};
use trine_kv::memtable::Memtable;
use trine_kv::range_tombstone::RangeTombstone;
use trine_kv::selector::{Direction, ScanSelector};
use trine_kv::snapshot::Snapshot;
use trine_kv::types::{KeyRange, KeyValue, Sequence};

#[test]
fn source_heap_orders_forward_and_reverse_keys() {
    let mut forward = SourceHeap::new(Direction::Forward);
    forward.push(heap_entry(b"c", 0, Direction::Forward));
    forward.push(heap_entry(b"a", 1, Direction::Forward));
    forward.push(heap_entry(b"b", 2, Direction::Forward));

    assert_eq!(forward.pop().expect("entry").user_key, b"a");
    assert_eq!(forward.pop().expect("entry").user_key, b"b");
    assert_eq!(forward.pop().expect("entry").user_key, b"c");

    let mut reverse = SourceHeap::new(Direction::Reverse);
    reverse.push(heap_entry(b"c", 0, Direction::Reverse));
    reverse.push(heap_entry(b"a", 1, Direction::Reverse));
    reverse.push(heap_entry(b"b", 2, Direction::Reverse));

    assert_eq!(reverse.pop().expect("entry").user_key, b"c");
    assert_eq!(reverse.pop().expect("entry").user_key, b"b");
    assert_eq!(reverse.pop().expect("entry").user_key, b"a");
}

#[test]
fn lazy_scan_heap_merge_preserves_forward_and_reverse_order() {
    let left = memtable_with(&[(b"a", b"a1"), (b"c", b"c1")]);
    let right = memtable_with(&[(b"b", b"b1"), (b"d", b"d1")]);

    let forward = Iter::from_sources(
        Direction::Forward,
        ScanSourceInput {
            read_sequence: Sequence::new(4),
            read_pin: Snapshot::new(Sequence::new(4)),
            range_tombstones: Vec::new(),
            sources: vec![
                RecordSource::memtable(
                    Arc::clone(&left),
                    &ScanSelector::Range(KeyRange::all()),
                    Direction::Forward,
                ),
                RecordSource::memtable(
                    Arc::clone(&right),
                    &ScanSelector::Range(KeyRange::all()),
                    Direction::Forward,
                ),
            ],
        },
    );
    assert_eq!(
        collect_keys(forward),
        vec![b"a".to_vec(), b"b".to_vec(), b"c".to_vec(), b"d".to_vec()]
    );

    let reverse = Iter::from_sources(
        Direction::Reverse,
        ScanSourceInput {
            read_sequence: Sequence::new(4),
            read_pin: Snapshot::new(Sequence::new(4)),
            range_tombstones: Vec::new(),
            sources: vec![
                RecordSource::memtable(
                    left,
                    &ScanSelector::Range(KeyRange::all()),
                    Direction::Reverse,
                ),
                RecordSource::memtable(
                    right,
                    &ScanSelector::Range(KeyRange::all()),
                    Direction::Reverse,
                ),
            ],
        },
    );
    assert_eq!(
        collect_keys(reverse),
        vec![b"d".to_vec(), b"c".to_vec(), b"b".to_vec(), b"a".to_vec()]
    );
}

#[test]
fn scan_hides_overwritten_deleted_and_future_rows() {
    let mut memtable = Memtable::new();
    let mut put = |key: &[u8], sequence: u64, value: &[u8]| {
        memtable.insert(
            InternalKey::new(key.to_vec(), Sequence::new(sequence), ValueKind::Put, 0),
            Some(ValueRef::Inline(value.to_vec())),
        );
    };
    put(b"a", 1, b"old");
    put(b"a", 2, b"new");
    put(b"a", 9, b"future");
    put(b"b", 1, b"covered");
    put(b"c", 4, b"kept");
    let mut iter = Iter::from_sources(
        Direction::Forward,
        ScanSourceInput {
            read_sequence: Sequence::new(5),
            read_pin: Snapshot::new(Sequence::new(5)),
            range_tombstones: vec![RangeTombstone {
                range: KeyRange::half_open(b"b".to_vec(), b"z".to_vec()),
                sequence: Sequence::new(3),
                batch_index: 0,
            }],
            sources: vec![RecordSource::memtable(
                Arc::new(memtable),
                &ScanSelector::Range(KeyRange::all()),
                Direction::Forward,
            )],
        },
    );
    let first = iter.next_sync().expect("row").expect("reads");
    assert_eq!((first.key, first.value), (b"a".to_vec(), b"new".to_vec()));
    let second = iter.next_sync().expect("row").expect("reads");
    assert_eq!((second.key, second.value), (b"c".to_vec(), b"kept".to_vec()));
    assert!(iter.next_sync().is_none());
}

fn layered_scan(direction: Direction, selector: &ScanSelector) -> Iter {
    let record = |key: &[u8], sequence: u64, kind: ValueKind, value: Option<&[u8]>| {
        (
            InternalKey::new(key.to_vec(), Sequence::new(sequence), kind, 0),
            value.map(|value| ValueRef::Inline(value.to_vec())),
        )
    };
    let layers = [
        vec![
            record(b"a", 1, ValueKind::Put, Some(b"a1")),
            record(b"b", 1, ValueKind::Put, Some(b"b1")),
            record(b"d", 2, ValueKind::Put, Some(b"d2")),
            record(b"e", 1, ValueKind::Put, Some(b"e1")),
        ],
        vec![
            record(b"a", 5, ValueKind::Put, Some(b"a5")),
            record(b"b", 4, ValueKind::PointDelete, None),
            record(b"c", 9, ValueKind::Put, Some(b"c9")),
            record(b"d", 3, ValueKind::Put, Some(b"d3")),
        ],
        vec![record(b"f", 6, ValueKind::Put, Some(b"f6"))],
    ];
    let sources = layers
        .into_iter()
        .map(|records| {
            let mut memtable = Memtable::new();
            for (key, value) in records {
                memtable.insert(key, value);
            }
            RecordSource::memtable(Arc::new(memtable), selector, direction)
        })
        .collect();
    Iter::from_sources(
        direction,
        ScanSourceInput {
            read_sequence: Sequence::new(6),
            read_pin: Snapshot::new(Sequence::new(6)),
            range_tombstones: vec![RangeTombstone {
                range: KeyRange::half_open(b"d".to_vec(), b"f".to_vec()),
                sequence: Sequence::new(2),
                batch_index: 1,
            }],
            sources,
        },
    )
}

fn collect_rows(mut iter: Iter) -> Vec<(Vec<u8>, Vec<u8>)> {
    let mut rows = Vec::new();
    while let Some(item) = iter.next_sync() {
        let row = item.expect("iterator item");
        rows.push((row.key, row.value));
    }
    assert!(iter.next_sync().is_none());
    rows
}

#[test]
fn draining_a_scan_returns_every_visible_row_once() {
    let all = ScanSelector::Range(KeyRange::all());
    let mut expected = vec![
        (b"a".to_vec(), b"a5".to_vec()),
        (b"d".to_vec(), b"d3".to_vec()),
        (b"f".to_vec(), b"f6".to_vec()),
    ];
    assert_eq!(collect_rows(layered_scan(Direction::Forward, &all)), expected);
    expected.reverse();
    assert_eq!(collect_rows(layered_scan(Direction::Reverse, &all)), expected);

    let some = ScanSelector::Range(KeyRange::half_open(b"b".to_vec(), b"f".to_vec()));
    assert_eq!(
        collect_rows(layered_scan(Direction::Forward, &some)),
        vec![(b"d".to_vec(), b"d3".to_vec())]
    );
}

#[test]
fn a_scan_reports_a_record_without_value_and_goes_on() {
    let mut memtable = Memtable::new();
    for (key, value) in [
        (b"a", Some(b"1")),
        (b"b", None),
        (b"c", Some(b"3")),
    ] {
        memtable.insert(
            InternalKey::new(key.to_vec(), Sequence::new(1), ValueKind::Put, 0),
            value.map(|value: &[u8; 1]| ValueRef::Inline(value.to_vec())),
        );
    }
    let mut iter = Iter::from_sources(
        Direction::Forward,
        ScanSourceInput {
            read_sequence: Sequence::new(1),
            read_pin: Snapshot::new(Sequence::new(1)),
            range_tombstones: Vec::new(),
            sources: vec![RecordSource::memtable(
                Arc::new(memtable),
                &ScanSelector::Range(KeyRange::all()),
                Direction::Forward,
            )],
        },
    );
    assert_eq!(iter.next_sync().expect("row").expect("reads").key, b"a");
    let error = iter.next_sync().expect("row").expect_err("value is missing");
    assert_eq!(error.kind(), ErrorKind::Corruption);
    assert_eq!(error.text(), "put record is missing value bytes");
    assert_eq!(iter.next_sync().expect("row").expect("reads").key, b"c");
    assert!(iter.next_sync().is_none());
}

#[test]
fn a_cloned_iterator_goes_on_by_itself() {
    let all = ScanSelector::Range(KeyRange::all());
    let mut scan = layered_scan(Direction::Forward, &all);
    assert_eq!(scan.next_sync().expect("row").expect("reads").key, b"a");
    let copy = scan.clone();
    assert_eq!(copy.direction(), Direction::Forward);
    let rest = vec![
        (b"d".to_vec(), b"d3".to_vec()),
        (b"f".to_vec(), b"f6".to_vec()),
    ];
    assert_eq!(collect_rows(scan), rest);
    assert_eq!(collect_rows(copy), rest);

    let row = |key: &[u8]| KeyValue::new(key.to_vec(), key.to_vec());
    let mut items = Iter::from_items(vec![row(b"x"), row(b"y")], Direction::Reverse);
    let copy = items.clone();
    assert_eq!(items.next_sync().expect("row").expect("reads").key, b"y");
    assert_eq!(collect_keys(items), vec![b"x".to_vec()]);
    assert_eq!(collect_keys(copy), vec![b"y".to_vec(), b"x".to_vec()]);
}

fn heap_entry(user_key: &[u8], source_index: usize, direction: Direction) -> SourceHeapEntry {
    SourceHeapEntry {
        user_key: user_key.to_vec(),
        source_index,
        direction,
    }
}

fn memtable_with(records: &[(&[u8], &[u8])]) -> Arc<Memtable> {
    let mut memtable = Memtable::default();
    for (index, (key, value)) in records.iter().enumerate() {
        memtable.insert(
            InternalKey::new(
                key.to_vec(),
                Sequence::new(u64::try_from(index + 1).expect("test sequence fits")),
                ValueKind::Put,
                0,
            ),
            Some(ValueRef::Inline(value.to_vec())),
        );
    }
    Arc::new(memtable)
}

fn collect_keys(mut iter: Iter) -> Vec<Vec<u8>> {
    let mut keys = Vec::new();
    while let Some(item) = iter.next_sync() {
        keys.push(item.expect("iterator item").key);
    }
    keys
}
