use trine_kv::options::{DurabilityMode, StorageMode, WalShardPolicy};

fn persistent() -> StorageMode {
    StorageMode::Persistent {
        path: "/tmp/trine-wal-policy-test".to_string(),
    }
}

#[test]
fn auto_uses_one_lane_for_per_commit_fsync_durability() {
    // Persistent + sync durability is the group-commit regime: one lane.
    assert_eq!(
        WalShardPolicy::Auto.resolve(&persistent(), DurabilityMode::SyncAll),
        1
    );
    assert_eq!(
        WalShardPolicy::Auto.resolve(&persistent(), DurabilityMode::SyncData),
        1
    );
}

#[test]
fn auto_uses_parallel_lanes_without_per_commit_fsync() {
    // No per-commit fsync (Buffered/Flush) or in-memory: parallel lanes.
    assert_eq!(
        WalShardPolicy::Auto.resolve(&persistent(), DurabilityMode::Buffered),
        WalShardPolicy::AUTO_PARALLEL_LANES
    );
    assert_eq!(
        WalShardPolicy::Auto.resolve(&StorageMode::InMemory, DurabilityMode::SyncAll),
        WalShardPolicy::AUTO_PARALLEL_LANES
    );
}

#[test]
fn fixed_clamps_to_at_least_one_lane() {
    assert_eq!(
        WalShardPolicy::Fixed(0).resolve(&persistent(), DurabilityMode::SyncAll),
        1
    );
    assert_eq!(
        WalShardPolicy::Fixed(8).resolve(&persistent(), DurabilityMode::SyncAll),
        8
    );
}
