use std::sync::Arc;

use trine_kv::error::{ErrorKind, Result};
use trine_kv::iterator::{Iter, ScanSourceInput};
use trine_kv::keyspace::{Keyspace, KeyspaceName};
use trine_kv::lsm::batch::{
    point_read_batch_prefers_single_key_path, PointReadBatch, POINT_READ_BATCH_GROUPING_MIN_KEYS,
};
use trine_kv::lsm::conflict::{
    key_range_modified_after_in_snapshot, point_key_modified_after_in_snapshot,
};
use trine_kv::lsm::delta::DELTA_EPOCH_MAX_DELTAS;
use trine_kv::lsm::read::{
    read_visible_point_value_in_snapshot, read_visible_point_values_in_snapshot,
};
use trine_kv::lsm::scan::{scan_range_tombstones, scan_sources, LsmScan};
use trine_kv::lsm::sources::MemorySources;
use trine_kv::lsm::tree::LsmTree;
use trine_kv::options::BucketOptions;
use trine_kv::point_value::{PointValue, PointValueSource};
use trine_kv::selector::{Direction, ScanSelector};
use trine_kv::snapshot::Snapshot;
use trine_kv::types::{KeyRange, Sequence};
use trine_kv::write_batch::BatchOperation;

fn put(key: &[u8], value: &[u8]) -> BatchOperation {
    BatchOperation::Put {
        bucket: "default".to_owned(),
        key: key.to_vec(),
        value: value.to_vec(),
    }
}

fn delete_range(start: &[u8], end: &[u8]) -> BatchOperation {
    BatchOperation::DeleteRange {
        bucket: "default".to_owned(),
        range: KeyRange::half_open(start.to_vec(), end.to_vec()),
    }
}

fn remove_immutable_queue(tree: &mut LsmTree) {
    tree.immutable_memtables.clear();
    tree.immutable_memtable_count = 0;
}

#[test]
fn conflict_snapshot_keeps_flushed_immutable_point_after_queue_removal() -> Result<()> {
    let mut tree = LsmTree::new(BucketOptions::default(), Vec::new())?;
    let read_sequence = Sequence::new(1);
    let write_sequence = Sequence::new(2);

    tree.apply_operation(put(b"a", b"v2"), write_sequence, 0);
    assert!(tree.freeze_active_memtable(write_sequence)?);

    let snapshot = tree.point_conflict_snapshot(b"a", read_sequence);
    remove_immutable_queue(&mut tree);

    assert!(point_key_modified_after_in_snapshot(
        &snapshot,
        b"a",
        read_sequence
    ));

    Ok(())
}

#[test]
fn conflict_snapshot_keeps_flushed_immutable_range_point_after_queue_removal() -> Result<()> {
    let mut tree = LsmTree::new(BucketOptions::default(), Vec::new())?;
    let read_sequence = Sequence::new(1);
    let write_sequence = Sequence::new(2);

    tree.apply_operation(put(b"b", b"v2"), write_sequence, 0);
    assert!(tree.freeze_active_memtable(write_sequence)?);

    let snapshot = tree.range_conflict_snapshot(read_sequence);
    remove_immutable_queue(&mut tree);

    assert!(key_range_modified_after_in_snapshot(
        &snapshot,
        &KeyRange::half_open(b"a".to_vec(), b"z".to_vec()),
        read_sequence
    ));

    Ok(())
}

#[test]
fn conflict_snapshot_keeps_flushed_immutable_tombstone_after_queue_removal() -> Result<()> {
    let mut tree = LsmTree::new(BucketOptions::default(), Vec::new())?;
    let read_sequence = Sequence::new(1);
    let write_sequence = Sequence::new(2);

    tree.apply_operation(delete_range(b"a", b"z"), write_sequence, 0);
    assert!(tree.freeze_active_memtable(write_sequence)?);

    let point_snapshot = tree.point_conflict_snapshot(b"b", read_sequence);
    let range_snapshot = tree.range_conflict_snapshot(read_sequence);
    remove_immutable_queue(&mut tree);

    assert!(point_key_modified_after_in_snapshot(
        &point_snapshot,
        b"b",
        read_sequence
    ));
    assert!(key_range_modified_after_in_snapshot(
        &range_snapshot,
        &KeyRange::half_open(b"b".to_vec(), b"c".to_vec()),
        read_sequence
    ));

    Ok(())
}

#[test]
fn delta_heads_feed_point_reads_without_active_memtable() {
    let mut tree = LsmTree::new(BucketOptions::default(), Vec::new()).expect("tree builds");
    tree.publish_delta_operations(vec![(put(b"k", b"v"), 0)], Sequence::new(1));

    assert_eq!(
        tree.read_visible_point(b"k", Sequence::new(1), None)
            .expect("read delta point"),
        Some(b"v".to_vec())
    );
    assert_eq!(
        tree.read_visible_point(b"k", Sequence::zero(), None)
            .expect("old read ignores delta"),
        None
    );
}

#[test]
fn delta_heads_feed_range_tombstone_reads_without_active_memtable() {
    let mut tree = LsmTree::new(BucketOptions::default(), Vec::new()).expect("tree builds");
    tree.publish_delta_operations(vec![(put(b"k", b"v"), 0)], Sequence::new(1));
    tree.publish_delta_operations(vec![(delete_range(b"a", b"z"), 0)], Sequence::new(2));

    assert_eq!(
        tree.read_visible_point(b"k", Sequence::new(1), None)
            .expect("snapshot before range tombstone"),
        Some(b"v".to_vec())
    );
    assert_eq!(
        tree.read_visible_point(b"k", Sequence::new(2), None)
            .expect("range tombstone covers delta point"),
        None
    );

    let (delta_count, point_delta_count, range_tombstone_count) = tree.delta_debug_counts();
    assert_eq!(delta_count, 17);
    assert_eq!(point_delta_count, 1);
    assert_eq!(range_tombstone_count, 16);
}

#[test]
fn delta_heads_feed_range_scans_without_active_memtable() {
    let mut tree = LsmTree::new(BucketOptions::default(), Vec::new()).expect("tree builds");
    tree.publish_delta_operations(
        vec![(put(b"a", b"one"), 0), (put(b"b", b"two"), 1)],
        Sequence::new(1),
    );

    let scan = tree.scan(
        &ScanSelector::Range(KeyRange::all()),
        Direction::Forward,
        Sequence::new(1),
    );
    let mut iter = Iter::from_sources(
        Direction::Forward,
        ScanSourceInput {
            read_sequence: Sequence::new(1),
            read_pin: Snapshot::new(Sequence::new(1)),
            range_tombstones: scan.range_tombstones,
            sources: scan.sources,
        },
    );

    let first = iter
        .next_sync()
        .expect("first row exists")
        .expect("first row reads");
    let second = iter
        .next_sync()
        .expect("second row exists")
        .expect("second row reads");
    assert_eq!((first.key, first.value), (b"a".to_vec(), b"one".to_vec()));
    assert_eq!((second.key, second.value), (b"b".to_vec(), b"two".to_vec()));
    assert!(iter.next_sync().is_none());
}

#[test]
fn delta_epoch_merge_bounds_chain_and_preserves_point_reads() {
    let mut tree = LsmTree::new(BucketOptions::default(), Vec::new()).expect("tree builds");
    let delta_budget = u64::try_from(DELTA_EPOCH_MAX_DELTAS).expect("delta budget fits u64");
    let write_count = delta_budget + 2;

    for sequence in 1..=write_count {
        tree.publish_delta_operations(
            vec![(put(b"k", format!("v{sequence}").as_bytes()), 0)],
            Sequence::new(sequence),
        );
    }

    assert_eq!(
        tree.read_visible_point(b"k", Sequence::new(write_count), None)
            .expect("latest point survives merge"),
        Some(format!("v{write_count}").into_bytes())
    );
    assert_eq!(
        tree.read_visible_point(b"k", Sequence::new(3), None)
            .expect("older point survives merge"),
        Some(b"v3".to_vec())
    );

    let stats = tree.delta_debug_stats();
    assert_eq!(stats.merged_epoch_count, 1);
    assert_eq!(stats.sealed_epoch_count, 1);
    assert_eq!(stats.retired_delta_count, delta_budget);
    assert!(stats.max_shard_chain_len < DELTA_EPOCH_MAX_DELTAS);
    assert!(stats.open_epoch_bytes > 0);
}

#[test]
fn delta_epoch_merge_preserves_range_tombstone_visibility() {
    let mut tree = LsmTree::new(BucketOptions::default(), Vec::new()).expect("tree builds");
    tree.publish_delta_operations(vec![(put(b"k", b"v"), 0)], Sequence::new(1));

    let delete_count = DELTA_EPOCH_MAX_DELTAS;
    for index in 0..delete_count {
        let sequence = u64::try_from(index).expect("delete index fits u64") + 2;
        tree.publish_delta_operations(vec![(delete_range(b"a", b"z"), 0)], Sequence::new(sequence));
    }

    assert_eq!(
        tree.read_visible_point(b"k", Sequence::new(1), None)
            .expect("snapshot before range tombstones"),
        Some(b"v".to_vec())
    );
    assert_eq!(
        tree.read_visible_point(
            b"k",
            Sequence::new(u64::try_from(delete_count).expect("delete count fits u64") + 1),
            None
        )
        .expect("range tombstones survive merge"),
        None
    );

    let stats = tree.delta_debug_stats();
    assert!(stats.merged_epoch_count >= 1);
    assert_eq!(stats.sealed_epoch_count, stats.merged_epoch_count);
    assert!(stats.range_tombstone_count >= delete_count);
}

#[test]
fn small_unique_point_batches_use_single_key_path() {
    let keys = vec![b"a".to_vec(), b"b".to_vec(), b"c".to_vec()];

    assert!(point_read_batch_prefers_single_key_path(&keys));
}

#[test]
fn small_duplicate_point_batches_keep_batch_path() {
    let keys = vec![b"a".to_vec(), b"b".to_vec(), b"a".to_vec()];

    assert!(!point_read_batch_prefers_single_key_path(&keys));
}

#[test]
fn grouping_threshold_uses_batch_path() {
    let keys = (0..POINT_READ_BATCH_GROUPING_MIN_KEYS)
        .map(|index| format!("key-{index:08}").into_bytes())
        .collect::<Vec<_>>();

    assert!(!point_read_batch_prefers_single_key_path(&keys));
}

fn scan_from_snapshot(
    tree: &LsmTree,
    source_snapshot: &MemorySources,
    selector: &ScanSelector,
) -> LsmScan {
    let version = tree.current_version();
    LsmScan {
        range_tombstones: scan_range_tombstones(source_snapshot, &version, selector),
        sources: scan_sources(source_snapshot, &version, selector, Direction::Forward),
    }
}

#[test]
fn scan_snapshot_keeps_flushed_immutable_point_source_after_queue_removal() -> Result<()> {
    let mut tree = LsmTree::new(BucketOptions::default(), Vec::new())?;
    let read_sequence = Sequence::new(1);

    tree.apply_operation(put(b"a", b"v1"), read_sequence, 0);
    assert!(tree.freeze_active_memtable(read_sequence)?);

    let selector = ScanSelector::Range(KeyRange::all());
    let source_snapshot = tree.scan_source_snapshot(read_sequence);
    remove_immutable_queue(&mut tree);

    let scan = scan_from_snapshot(&tree, &source_snapshot, &selector);
    let mut iter = Iter::from_sources(
        Direction::Forward,
        ScanSourceInput {
            read_sequence,
            read_pin: Snapshot::new(read_sequence),
            range_tombstones: scan.range_tombstones,
            sources: scan.sources,
        },
    );

    let row = iter
        .next_sync()
        .transpose()?
        .expect("scan should keep the pre-removal immutable source");
    assert_eq!(row.key, b"a".to_vec());
    assert_eq!(row.value, b"v1".to_vec());
    assert!(iter.next_sync().transpose()?.is_none());

    Ok(())
}

#[test]
fn scan_snapshot_keeps_flushed_immutable_range_tombstones_after_queue_removal() -> Result<()> {
    let mut tree = LsmTree::new(BucketOptions::default(), Vec::new())?;
    let read_sequence = Sequence::new(1);

    tree.apply_operation(delete_range(b"a", b"z"), read_sequence, 0);
    assert!(tree.freeze_active_memtable(read_sequence)?);

    let selector = ScanSelector::Range(KeyRange::all());
    let source_snapshot = tree.scan_source_snapshot(read_sequence);
    remove_immutable_queue(&mut tree);

    let scan = scan_from_snapshot(&tree, &source_snapshot, &selector);
    assert_eq!(scan.range_tombstones.len(), 1);
    assert_eq!(
        scan.range_tombstones[0].range,
        KeyRange::half_open(b"a".to_vec(), b"z".to_vec())
    );

    Ok(())
}

#[test]
fn drop_gate_rejects_new_writes_and_drains_existing_admissions() {
    let mut tree = LsmTree::new(BucketOptions::default(), Vec::new()).expect("create tree");
    let admission = tree.admit_write().expect("admit existing write");
    let drop_guard = tree.begin_drop().expect("begin drop");

    assert!(
        tree.admit_write().is_err(),
        "drop gate must reject a writer arriving after drop starts"
    );
    assert!(!drop_guard.writes_drained(&tree.lifecycle));
    let _ = tree.lifecycle.release_write(admission);
    assert!(
        drop_guard.writes_drained(&tree.lifecycle),
        "existing writer drains"
    );
    drop_guard.commit(&tree.lifecycle);

    assert!(
        tree.admit_write().is_err(),
        "committed drop keeps stale handles fenced permanently"
    );
}

#[test]
fn aborted_drop_reopens_admission() {
    let mut tree = LsmTree::new(BucketOptions::default(), Vec::new()).expect("create tree");
    let guard = tree.begin_drop().expect("begin drop");
    let _ = tree.lifecycle.abort_drop(guard);
    tree.admit_write()
        .expect("failed durable drop must restore write admission");
}

#[test]
fn point_reads_see_the_newest_visible_write() {
    let mut tree = LsmTree::new(BucketOptions::default(), Vec::new()).expect("tree builds");
    tree.apply_operation(put(b"k", b"one"), Sequence::new(1), 0);
    tree.apply_operation(put(b"k", b"two"), Sequence::new(3), 0);
    tree.apply_operation(
        BatchOperation::Delete {
            bucket: "default".to_owned(),
            key: b"k".to_vec(),
        },
        Sequence::new(5),
        0,
    );
    let read = |tree: &LsmTree, sequence: u64| {
        tree.read_visible_point(b"k", Sequence::new(sequence), None)
            .expect("reads")
    };
    assert_eq!(read(&tree, 0), None);
    assert_eq!(read(&tree, 2), Some(b"one".to_vec()));
    assert_eq!(read(&tree, 4), Some(b"two".to_vec()));
    assert_eq!(read(&tree, 5), None);
    assert!(tree.point_key_modified_after(b"k", Sequence::new(4)));
    assert!(!tree.point_key_modified_after(b"k", Sequence::new(5)));
    assert!(!tree.key_range_modified_after(
        &KeyRange::half_open(b"l".to_vec(), b"z".to_vec()),
        Sequence::zero()
    ));
}

#[test]
fn freezing_an_empty_memtable_changes_nothing() {
    let mut tree = LsmTree::new(BucketOptions::default(), Vec::new()).expect("tree builds");
    assert!(!tree.freeze_active_memtable(Sequence::new(1)).expect("freezes"));
    assert!(!tree.has_immutable_memtable_fast());
    tree.apply_operation(put(b"k", b"v"), Sequence::new(1), 0);
    assert!(tree.freeze_active_memtable(Sequence::new(1)).expect("freezes"));
    assert!(tree.has_immutable_memtable_fast());
    let inputs = tree.prepare_flush_inputs();
    assert_eq!(inputs.len(), 1);
    let current = tree.current_version();
    assert_eq!(Arc::strong_count(&current), 2);
    assert_eq!(tree.l0_table_count(), 0);
}

#[test]
fn drop_refuses_a_second_drop() {
    let mut tree = LsmTree::new(BucketOptions::default(), Vec::new()).expect("tree builds");
    let guard = tree.begin_drop().expect("begin drop");
    let error = tree.begin_drop().expect_err("drop is in progress");
    assert_ne!(error.kind(), ErrorKind::Corruption);
    assert!(tree.ensure_available().is_err());
    let _ = tree.lifecycle.abort_drop(guard);
    assert!(tree.ensure_available().is_ok());
}

fn delete(key: &[u8]) -> BatchOperation {
    BatchOperation::Delete {
        bucket: "default".to_owned(),
        key: key.to_vec(),
    }
}

fn read(tree: &LsmTree, key: &[u8], sequence: u64) -> Option<Vec<u8>> {
    tree.read_visible_point(key, Sequence::new(sequence), None)
        .expect("point is readable")
}

#[test]
fn applied_operations_are_read_back() {
    let mut tree = LsmTree::new(BucketOptions::default(), Vec::new()).expect("tree builds");
    tree.apply_operation(put(b"a", b"1"), Sequence::new(1), 0);
    tree.apply_operation(put(b"b", b"2"), Sequence::new(2), 0);
    assert_eq!(read(&tree, b"a", 2), Some(b"1".to_vec()));
    assert_eq!(read(&tree, b"b", 2), Some(b"2".to_vec()));

    tree.apply_operation(delete(b"a"), Sequence::new(3), 0);
    assert_eq!(read(&tree, b"a", 3), None);
    assert_eq!(read(&tree, b"a", 2), Some(b"1".to_vec()));
    assert_eq!(read(&tree, b"b", 3), Some(b"2".to_vec()));

    tree.apply_operation(delete_range(b"b", b"c"), Sequence::new(4), 0);
    assert_eq!(read(&tree, b"b", 4), None);
    assert_eq!(read(&tree, b"b", 3), Some(b"2".to_vec()));
}

#[test]
fn freezing_leaves_reads_alone() {
    let mut tree = LsmTree::new(BucketOptions::default(), Vec::new()).expect("tree builds");
    tree.apply_operation(put(b"a", b"old"), Sequence::new(1), 0);
    tree.apply_operation(put(b"a", b"new"), Sequence::new(2), 0);
    assert!(tree
        .freeze_active_memtable(Sequence::new(2))
        .expect("memtable freezes"));
    assert_eq!(read(&tree, b"a", 1), Some(b"old".to_vec()));
    assert_eq!(read(&tree, b"a", 2), Some(b"new".to_vec()));
    assert_eq!(read(&tree, b"b", 2), None);
}

#[test]
fn published_commits_are_read_back() {
    let mut tree = LsmTree::new(BucketOptions::default(), Vec::new()).expect("tree builds");
    tree.publish_delta_operations(
        vec![
            (put(b"a", b"first"), 0),
            (put(b"a", b"last"), 1),
            (put(b"b", b"kept"), 2),
        ],
        Sequence::new(1),
    );
    assert_eq!(read(&tree, b"a", 1), Some(b"last".to_vec()));

    tree.publish_delta_operations(
        vec![
            (delete_range(b"b", b"c"), 0),
            (put(b"b", b"again"), 1),
            (put(b"a", b"gone"), 2),
            (delete(b"a"), 3),
        ],
        Sequence::new(2),
    );
    assert_eq!(read(&tree, b"a", 2), None);
    assert_eq!(read(&tree, b"b", 2), Some(b"again".to_vec()));
    assert_eq!(read(&tree, b"a", 1), Some(b"last".to_vec()));
    assert_eq!(read(&tree, b"b", 1), Some(b"kept".to_vec()));

    tree.publish_delta_operations(
        vec![(put(b"b", b"short"), 0), (delete_range(b"b", b"c"), 1)],
        Sequence::new(3),
    );
    assert_eq!(read(&tree, b"b", 3), None);
    assert_eq!(read(&tree, b"b", 2), Some(b"again".to_vec()));
}

#[test]
fn merged_deltas_serve_every_snapshot() {
    let mut tree = LsmTree::new(BucketOptions::default(), Vec::new()).expect("tree builds");
    for commit in 1..=20u64 {
        tree.publish_delta_operations(
            vec![(put(b"k", format!("v{commit}").as_bytes()), 0)],
            Sequence::new(commit),
        );
        for snapshot in 1..=commit {
            assert_eq!(
                read(&tree, b"k", snapshot),
                Some(format!("v{snapshot}").into_bytes())
            );
        }
    }
}

#[test]
fn mirrored_commits_are_read_from_memtables() {
    let mut tree = LsmTree::new(BucketOptions::default(), Vec::new()).expect("tree builds");
    for commit in 1..=2u64 {
        let value = format!("v{commit}");
        tree.publish_delta_operations(
            vec![(put(b"k", value.as_bytes()), 0)],
            Sequence::new(commit),
        );
        tree.apply_operation(put(b"k", value.as_bytes()), Sequence::new(commit), 0);
    }
    assert_eq!(read(&tree, b"k", 1), Some(b"v1".to_vec()));
    assert_eq!(read(&tree, b"k", 2), Some(b"v2".to_vec()));
    tree.mark_delta_mirror_sequence(Sequence::new(2));
    assert_eq!(read(&tree, b"k", 1), Some(b"v1".to_vec()));
    assert_eq!(read(&tree, b"k", 2), Some(b"v2".to_vec()));
}

#[test]
fn epoch_budget_merges_deltas_early() {
    let mut tree = LsmTree::new(BucketOptions::default(), Vec::new()).expect("tree builds");
    for commit in 1..=3u64 {
        tree.publish_delta_operations_with_budget(
            vec![(put(b"k", format!("v{commit}").as_bytes()), 0)],
            Sequence::new(commit),
            1,
        );
        assert_eq!(tree.delta_debug_counts().0, 1);
    }
    assert!(tree.delta_estimated_bytes() > 0);
    assert_eq!(read(&tree, b"k", 1), Some(b"v1".to_vec()));
    assert_eq!(read(&tree, b"k", 3), Some(b"v3".to_vec()));
}

fn value_of(found: Option<PointValueSource>) -> Option<Vec<u8>> {
    found.map(|source| {
        source
            .into_point_value(None)
            .expect("value in memory")
            .into_vec()
    })
}

#[test]
fn memtable_decides_a_commit_that_is_split_with_a_delta() {
    let mut tree = LsmTree::new(BucketOptions::default(), Vec::new()).expect("tree builds");
    tree.apply_operation(put(b"k", b"memory"), Sequence::new(5), 0);
    tree.publish_delta_operations(vec![(put(b"k", b"delta"), 1)], Sequence::new(5));
    assert_eq!(read(&tree, b"k", 5), Some(b"memory".to_vec()));

    tree.publish_delta_operations(vec![(put(b"k", b"later"), 0)], Sequence::new(6));
    assert_eq!(read(&tree, b"k", 5), Some(b"memory".to_vec()));
    assert_eq!(read(&tree, b"k", 6), Some(b"later".to_vec()));
}

#[test]
fn later_operation_of_a_commit_decides_in_a_memtable() {
    let mut tree = LsmTree::new(BucketOptions::default(), Vec::new()).expect("tree builds");
    tree.apply_operation(put(b"k", b"second"), Sequence::new(5), 1);
    tree.apply_operation(put(b"k", b"first"), Sequence::new(5), 0);
    assert_eq!(read(&tree, b"k", 5), Some(b"second".to_vec()));
}

#[test]
fn batch_read_gives_what_single_reads_give() {
    let mut tree = LsmTree::new(BucketOptions::default(), Vec::new()).expect("tree builds");
    for number in 0..20u8 {
        tree.apply_operation(put(&[number], &[number, 1]), Sequence::new(1), number.into());
    }
    tree.apply_operation(delete_range(&[5], &[8]), Sequence::new(2), 0);
    tree.publish_delta_operations(vec![(put(&[6], b"back"), 0)], Sequence::new(3));
    let keys: Vec<Vec<u8>> = [9u8, 6, 5, 30, 9, 6, 0, 19, 7, 9]
        .iter()
        .map(|key| vec![*key])
        .collect();
    for sequence in 0..=3u64 {
        let snapshot = tree.point_read_snapshot(Sequence::new(sequence));
        let together =
            read_visible_point_values_in_snapshot(&snapshot, &keys, Sequence::new(sequence))
                .expect("batch reads");
        let alone: Vec<Option<Vec<u8>>> = keys
            .iter()
            .map(|key| {
                value_of(
                    read_visible_point_value_in_snapshot(
                        &snapshot,
                        key,
                        Sequence::new(sequence),
                    )
                    .expect("single read"),
                )
            })
            .collect();
        let together: Vec<Option<Vec<u8>>> = together.into_iter().map(value_of).collect();
        assert_eq!(together, alone);
        if sequence == 3 {
            assert_eq!(together[0], Some(vec![9, 1]));
            assert_eq!(together[1], Some(b"back".to_vec()));
            assert_eq!(together[2], None);
            assert_eq!(together[3], None);
            assert_eq!(together[4], Some(vec![9, 1]));
        }
    }
}

#[test]
fn batch_groups_equal_keys_by_first_position() {
    let short: Vec<Vec<u8>> = [b"b", b"a", b"b", b"c", b"a", b"b"]
        .iter()
        .map(|key| key.to_vec())
        .collect();
    let batch = PointReadBatch::from_keys(&short);
    assert_eq!(batch.unique_keys, vec![0, 1, 3]);
    assert_eq!(batch.positions, vec![vec![0, 2, 5], vec![1, 4], vec![3]]);
    assert_eq!(batch.input_len, 6);

    let long: Vec<Vec<u8>> = (0..90u32).map(|key| vec![(key % 40) as u8]).collect();
    let batch = PointReadBatch::from_keys(&long);
    assert_eq!(batch.unique_keys, (0..40).collect::<Vec<usize>>());
    assert_eq!(batch.positions[3], vec![3, 43, 83]);
    assert_eq!(batch.positions[39], vec![39, 79]);
}

#[test]
fn keyspace_reads_the_latest_commit_like_a_snapshot_of_it() {
    let keyspace = Keyspace::new(KeyspaceName::from("default"), BucketOptions::default());
    let mut tree = LsmTree::new(BucketOptions::default(), Vec::new()).expect("tree builds");
    tree.apply_operation(put(b"k", b"one"), Sequence::new(1), 0);
    tree.apply_operation(put(b"k", b"two"), Sequence::new(2), 0);
    for sequence in 0..=2u64 {
        let latest = keyspace
            .get(&tree, Sequence::new(sequence), b"k")
            .expect("latest read");
        let at = keyspace
            .get_at(&tree, &Snapshot::new(Sequence::new(sequence)), b"k")
            .expect("snapshot read");
        assert_eq!(value_of(latest), value_of(at));
    }
    assert_eq!(
        value_of(keyspace.get(&tree, Sequence::new(2), b"k").expect("reads")),
        Some(b"two".to_vec())
    );
}

#[test]
fn keyspace_names_come_from_text() {
    assert_eq!(KeyspaceName::from("users").as_str(), "users");
    assert_eq!(KeyspaceName::from("users".to_owned()).as_str(), "users");
    let name: KeyspaceName = "orders".into();
    assert_eq!(name.as_str(), "orders");
}

#[test]
fn point_values_are_slices() {
    let value = PointValue::from_owned(b"bytes".to_vec());
    let slice: &[u8] = value.as_ref();
    assert_eq!(slice, b"bytes");
}

#[test]
fn read_snapshots_hold_the_deltas_shard_by_shard() {
    let mut tree = LsmTree::new(BucketOptions::default(), Vec::new()).expect("tree builds");
    for sequence in 1..=3u64 {
        tree.publish_delta_operations(
            vec![
                (put(b"a", format!("a{sequence}").as_bytes()), 0),
                (put(b"b", format!("b{sequence}").as_bytes()), 1),
                (put(b"c", format!("c{sequence}").as_bytes()), 2),
            ],
            Sequence::new(sequence),
        );
    }
    let at = Sequence::new(3);
    let mut listed = Vec::new();
    for shard in &tree.delta_shards.shards {
        for delta in &shard.open_epoch.deltas {
            listed.push(delta);
        }
    }
    let whole = tree.point_read_snapshot(at);
    assert!(Arc::ptr_eq(&whole.version, &tree.current_version));
    assert!(Arc::ptr_eq(
        &whole.memory.active_memtable,
        &tree.active_memtable
    ));
    let held = &whole.memory.delta_snapshot.deltas;
    assert_eq!(held.len(), listed.len());
    for i in 0..held.len() {
        assert!(Arc::ptr_eq(&held[i], listed[i]));
    }

    let keys = vec![b"b".to_vec(), b"a".to_vec()];
    let some = tree.point_read_snapshot_for_keys(&keys, at);
    for key in &keys {
        for snapshot in [&whole, &some] {
            let found = read_visible_point_value_in_snapshot(snapshot, key, at).expect("reads");
            assert_eq!(value_of(found), read(&tree, key, 3));
        }
    }

    tree.mark_delta_mirror_sequence(at);
    assert!(tree
        .point_read_snapshot(at)
        .memory
        .delta_snapshot
        .deltas
        .is_empty());
    assert!(tree
        .point_read_snapshot_for_keys(&keys, at)
        .memory
        .delta_snapshot
        .deltas
        .is_empty());
}
