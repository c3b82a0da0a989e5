//! Database, bucket, write, storage, runtime, and durability options.
use vstd::prelude::*;

use crate::codec::CodecId;
use crate::limits;
use crate::prefix::{PrefixExtractor, PrefixRule};
use crate::runtime::{RuntimeMode, RuntimeOptions};

verus! {

/// Storage location and host backend selected for a database.
#[derive(Debug, PartialEq, Eq)]
pub enum StorageMode {
    /// Keep all data in memory and discard it when the handle closes.
    InMemory,
    /// Store data in a native filesystem directory.
    Persistent {
        /// Native filesystem database directory.
        path: String,
    },
    /// Store data through an explicit host-provided backend.
    HostPersistent {
        /// Host backend used for persistent storage.
        backend: HostStorageBackend,
    },
}

impl Clone for StorageMode {
    fn clone(&self) -> (result: StorageMode)
        ensures
            result == *self,
    {
        match self {
            StorageMode::InMemory => StorageMode::InMemory,
            StorageMode::Persistent { path } => StorageMode::Persistent { path: path.clone() },
            StorageMode::HostPersistent { backend } => StorageMode::HostPersistent {
                backend: backend.clone(),
            },
        }
    }
}

/// Host storage backend selected for non-native persistent modes.
#[derive(Debug, PartialEq, Eq)]
pub enum HostStorageBackend {
    /// Use a WASI preopened filesystem path.
    Wasi {
        /// WASI preopened filesystem path.
        path: String,
    },
    /// Use browser storage.
    Browser,
    /// Use object storage (S3 and compatible). The object-store client is
    /// supplied at open time, not encoded here. Async-only.
    ObjectStore,
}

impl HostStorageBackend {
    /// Returns the name of the backend for messages.
    pub fn as_str(&self) -> (name: &'static str)
        ensures
            name@ == match self {
                HostStorageBackend::Wasi { .. } => "WASI persistent storage backend"@,
                HostStorageBackend::Browser => "browser persistent storage backend"@,
                HostStorageBackend::ObjectStore => "object-store persistent storage backend"@,
            },
    {
        match self {
            HostStorageBackend::Wasi { .. } => "WASI persistent storage backend",
            HostStorageBackend::Browser => "browser persistent storage backend",
            HostStorageBackend::ObjectStore => "object-store persistent storage backend",
        }
    }
}

impl Clone for HostStorageBackend {
    fn clone(&self) -> (result: HostStorageBackend)
        ensures
            result == *self,
    {
        match self {
            HostStorageBackend::Wasi { path } => HostStorageBackend::Wasi { path: path.clone() },
            HostStorageBackend::Browser => HostStorageBackend::Browser,
            HostStorageBackend::ObjectStore => HostStorageBackend::ObjectStore,
        }
    }
}

impl HostStorageBackend {
    /// The filesystem path of the backend, if it has one.
    pub open spec fn spec_path(&self) -> Option<Seq<char>> {
        match self {
            HostStorageBackend::Wasi { path } => Some(path@),
            HostStorageBackend::Browser => None,
            HostStorageBackend::ObjectStore => None,
        }
    }
}

impl StorageMode {
    /// The filesystem path of the database, if it has one.
    pub open spec fn spec_path(&self) -> Option<Seq<char>> {
        match self {
            StorageMode::InMemory => None,
            StorageMode::Persistent { path } => Some(path@),
            StorageMode::HostPersistent { backend } => backend.spec_path(),
        }
    }

    /// Returns the filesystem path of the database, if it has one.
    pub fn persistent_path(&self) -> (path: Option<&str>)
        ensures
            match path {
                Some(path) => self.spec_path() == Some(path@),
                None => self.spec_path() is None,
            },
    {
        match self {
            StorageMode::InMemory => None,
            StorageMode::Persistent { path } => Some(path.as_str()),
            StorageMode::HostPersistent { backend } => match backend {
                HostStorageBackend::Wasi { path } => Some(path.as_str()),
                HostStorageBackend::Browser => None,
                HostStorageBackend::ObjectStore => None,
            },
        }
    }

    /// Tells whether data goes to a WASI filesystem.
    pub fn is_wasi_persistent(&self) -> (is: bool)
        ensures
            is == (self is HostPersistent && self->backend is Wasi),
    {
        match self {
            StorageMode::HostPersistent { backend: HostStorageBackend::Wasi { .. } } => true,
            _ => false,
        }
    }

    /// Tells whether data goes to browser storage.
    pub fn is_browser_persistent(&self) -> (is: bool)
        ensures
            is == (self is HostPersistent && self->backend is Browser),
    {
        match self {
            StorageMode::HostPersistent { backend: HostStorageBackend::Browser } => true,
            _ => false,
        }
    }

    /// Tells whether data goes to an object store.
    pub fn is_object_store_persistent(&self) -> (is: bool)
        ensures
            is == (self is HostPersistent && self->backend is ObjectStore),
    {
        match self {
            StorageMode::HostPersistent { backend: HostStorageBackend::ObjectStore } => true,
            _ => false,
        }
    }
}

impl Default for StorageMode {
    fn default() -> (mode: StorageMode)
        ensures
            mode is InMemory,
    {
        StorageMode::InMemory
    }
}

/// Durability requested for committed writes.
#[derive(Debug, Clone, Copy, PartialEq, Eq, Structural)]
pub enum DurabilityMode {
    /// Accept writes after buffering them in the storage backend.
    Buffered,
    /// Flush buffered bytes to the backend.
    Flush,
    /// Sync file data without requiring metadata sync where the backend allows it.
    ///
    /// Non-strict: on macOS this is a plain `fsync`, which flushes to the drive
    /// but may leave the data in the drive's volatile cache.
    SyncData,
    /// Sync file data and metadata where the backend allows it.
    ///
    /// Non-strict, same power-loss caveat as `SyncData` on macOS. This is the
    /// default for persistent databases.
    SyncAll,
    /// Strict full sync: flush file data and metadata all the way through the
    /// drive's volatile cache to permanent storage.
    SyncAllStrict,
}

impl DurabilityMode {
    /// Returns the name of the mode for messages.
    pub fn as_str(self) -> (name: &'static str)
        ensures
            name@ == match self {
                DurabilityMode::Buffered => "buffered"@,
                DurabilityMode::Flush => "flush"@,
                DurabilityMode::SyncData => "sync-data"@,
                DurabilityMode::SyncAll => "sync-all"@,
                DurabilityMode::SyncAllStrict => "sync-all-strict"@,
            },
    {
        match self {
            DurabilityMode::Buffered => "buffered",
            DurabilityMode::Flush => "flush",
            DurabilityMode::SyncData => "sync-data",
            DurabilityMode::SyncAll => "sync-all",
            DurabilityMode::SyncAllStrict => "sync-all-strict",
        }
    }

    /// Whether every commit waits for a file sync.
    pub open spec fn spec_syncs_each_commit(self) -> bool {
        self is SyncData || self is SyncAll || self is SyncAllStrict
    }

    /// Tells whether every commit waits for a file sync.
    pub fn syncs_each_commit(self) -> (syncs: bool)
        ensures
            syncs == self.spec_syncs_each_commit(),
    {
        match self {
            DurabilityMode::Buffered => false,
            DurabilityMode::Flush => false,
            DurabilityMode::SyncData => true,
            DurabilityMode::SyncAll => true,
            DurabilityMode::SyncAllStrict => true,
        }
    }
}

impl Default for DurabilityMode {
    fn default() -> (mode: DurabilityMode)
        ensures
            mode == DurabilityMode::Buffered,
    {
        DurabilityMode::Buffered
    }
}

/// Compression codec profile used for table blocks.
#[derive(Debug, Clone, Copy, PartialEq, Eq, Structural)]
pub enum CompressionProfile {
    /// Store table blocks without compression.
    Uncompressed,
    /// Use the v1 fast LZ4 block codec.
    Fast,
}

impl CompressionProfile {
    /// The codec of the profile.
    pub open spec fn spec_codec_id(self) -> CodecId {
        match self {
            CompressionProfile::Uncompressed => CodecId::Uncompressed,
            CompressionProfile::Fast => CodecId::FastLz4Block,
        }
    }

    /// Returns the codec of the profile.
    pub fn codec_id(self) -> (codec: CodecId)
        ensures
            codec == self.spec_codec_id(),
    {
        match self {
            CompressionProfile::Uncompressed => CodecId::Uncompressed,
            CompressionProfile::Fast => CodecId::FastLz4Block,
        }
    }
}

impl Default for CompressionProfile {
    fn default() -> (profile: CompressionProfile)
        ensures
            profile == CompressionProfile::Fast,
    {
        CompressionProfile::Fast
    }
}

/// Point-read filter policy for table keys.
#[derive(Debug, Clone, Copy, PartialEq, Eq, Structural)]
pub enum FilterPolicy {
    /// Do not write table key filters.
    Disabled,
    /// Write Bloom filters with the requested bit budget per key.
    Bloom {
        /// Bloom-filter bit budget per key.
        bits_per_key: u8,
    },
}

impl Default for FilterPolicy {
    fn default() -> (policy: FilterPolicy)
        ensures
            policy == (FilterPolicy::Bloom { bits_per_key: 10 }),
    {
        FilterPolicy::Bloom { bits_per_key: 10 }
    }
}

/// Prefix-read filter policy for extracted key prefixes.
#[derive(Debug, Clone, Copy, PartialEq, Eq, Structural)]
pub enum PrefixFilterPolicy {
    /// Do not write prefix filters.
    Disabled,
    /// Write Bloom filters with the requested bit budget per prefix.
    Bloom {
        /// Bloom-filter bit budget per extracted prefix.
        bits_per_prefix: u8,
    },
}

impl Default for PrefixFilterPolicy {
    fn default() -> (policy: PrefixFilterPolicy)
        ensures
            policy == (PrefixFilterPolicy::Bloom { bits_per_prefix: 10 }),
    {
        PrefixFilterPolicy::Bloom { bits_per_prefix: 10 }
    }
}

/// Search strategy used inside table indexes.
#[derive(Debug, Clone, Copy, PartialEq, Eq, Structural)]
pub enum IndexSearchPolicy {
    /// Scan index entries linearly.
    Linear,
    /// Search index entries with binary search.
    Binary,
    /// Let Trine choose based on index size.
    Auto,
}

impl Default for IndexSearchPolicy {
    fn default() -> (policy: IndexSearchPolicy)
        ensures
            policy == IndexSearchPolicy::Auto,
    {
        IndexSearchPolicy::Auto
    }
}

/// Startup policy when repairable temporary files are found.
#[derive(Debug, Clone, Copy, PartialEq, Eq, Structural)]
pub enum FailOnCorruptionPolicy {
    /// Report the files as corruption and leave them untouched.
    FailClosed,
    /// Delete safe temporary files and write a recovery report.
    RepairSafeTemporaryFiles,
}

impl Default for FailOnCorruptionPolicy {
    fn default() -> (policy: FailOnCorruptionPolicy)
        ensures
            policy == FailOnCorruptionPolicy::FailClosed,
    {
        FailOnCorruptionPolicy::FailClosed
    }
}

/// Options used when opening a database.
///
/// `DbOptions` controls where data is stored, whether missing storage is
/// created, the default write durability, bucket defaults, runtime behavior,
/// maintenance thresholds, and startup recovery policy.
#[derive(Debug, PartialEq, Eq)]
pub struct DbOptions {
    /// Storage location and host backend.
    pub storage_mode: StorageMode,
    /// Create the database directory and metadata when missing.
    pub create_if_missing: bool,
    /// Open without allowing writes or maintenance that mutates storage.
    pub read_only: bool,
    /// Options used when the built-in default bucket is first created.
    pub default_bucket_options: BucketOptions,
    /// Default durability used by write helpers that do not pass `WriteOptions`.
    pub durability: DurabilityMode,
    /// Active memtable target size before flush.
    pub write_buffer_bytes: usize,
    /// Maximum queued immutable memtables before writes apply backpressure.
    pub max_immutable_memtables: usize,
    /// Target size for newly written table files.
    pub target_table_bytes: usize,
    /// Per-level size multiplier used by compaction.
    pub level_size_multiplier: usize,
    /// Maximum L0 table count before compaction is requested.
    pub max_l0_files: usize,
    /// How object-store opens treat the supplied object client.
    pub object_client_trust: ObjectClientTrustMode,
    /// Maximum user key length accepted by write APIs, in bytes.
    pub max_key_bytes: usize,
    /// Maximum user value length accepted by write APIs, in bytes.
    pub max_value_bytes: usize,
    /// Approximate bytes reserved for cached table blocks.
    pub block_cache_bytes: usize,
    /// Number of background workers used by maintenance-capable runtimes.
    pub background_worker_count: usize,
    /// Policy for the number of WAL shards (independent append lanes).
    pub wal_shards: WalShardPolicy,
    /// Runtime used for async, blocking, and background work.
    pub runtime: RuntimeOptions,
    /// Startup policy for safe temporary files left by interrupted writes.
    pub fail_on_corruption: FailOnCorruptionPolicy,
    /// Number of most recent read versions retained even when no snapshot or
    /// checkpoint pins them.
    pub keep_last_read_versions: u64,
    /// Enable garbage collection of obsolete blob bytes.
    pub blob_gc_enabled: bool,
    /// Minimum discardable-byte ratio required before a blob file is collected.
    pub blob_gc_discardable_ratio: BlobGcRatio,
    /// Minimum blob file size considered for garbage collection.
    pub blob_gc_min_file_bytes: u64,
}

impl Clone for DbOptions {
    fn clone(&self) -> (result: DbOptions)
        ensures
            result == *self,
    {
        DbOptions {
            storage_mode: self.storage_mode.clone(),
            create_if_missing: self.create_if_missing,
            read_only: self.read_only,
            default_bucket_options: self.default_bucket_options.clone(),
            durability: self.durability,
            write_buffer_bytes: self.write_buffer_bytes,
            max_immutable_memtables: self.max_immutable_memtables,
            target_table_bytes: self.target_table_bytes,
            level_size_multiplier: self.level_size_multiplier,
            max_l0_files: self.max_l0_files,
            object_client_trust: self.object_client_trust,
            max_key_bytes: self.max_key_bytes,
            max_value_bytes: self.max_value_bytes,
            block_cache_bytes: self.block_cache_bytes,
            background_worker_count: self.background_worker_count,
            wal_shards: self.wal_shards,
            runtime: self.runtime,
            fail_on_corruption: self.fail_on_corruption,
            keep_last_read_versions: self.keep_last_read_versions,
            blob_gc_enabled: self.blob_gc_enabled,
            blob_gc_discardable_ratio: self.blob_gc_discardable_ratio,
            blob_gc_min_file_bytes: self.blob_gc_min_file_bytes,
        }
    }
}

impl DbOptions {
    /// Default active memtable target size.
    pub const DEFAULT_WRITE_BUFFER_BYTES: usize = 64 * 1024 * 1024;

    /// Default target size for table files.
    pub const DEFAULT_TARGET_TABLE_BYTES: usize = 64 * 1024 * 1024;

    /// Default maximum user key length accepted by write APIs.
    pub const DEFAULT_MAX_KEY_BYTES: usize = limits::MAX_DECODED_BLOCK_BYTES;

    /// Default maximum user value length accepted by write APIs.
    pub const DEFAULT_MAX_VALUE_BYTES: usize = limits::MAX_DECODED_BLOCK_BYTES;

    /// Maximum configurable limit for a single write byte field.
    pub const MAX_WRITE_FIELD_BYTES: usize = limits::MAX_DECODED_BLOCK_BYTES;

    /// Default block-cache byte budget.
    pub const DEFAULT_BLOCK_CACHE_BYTES: usize = 256 * 1024 * 1024;

    /// Default minimum blob file size for garbage collection.
    pub const DEFAULT_BLOB_GC_MIN_FILE_BYTES: u64 = 64 * 1024 * 1024;

    /// Default number of recent read versions retained without explicit pins.
    pub const DEFAULT_KEEP_LAST_READ_VERSIONS: u64 = 1;

    /// Whether every field has its default value.
    pub open spec fn is_default(self) -> bool {
        &&& self.storage_mode is InMemory
        &&& self.create_if_missing
        &&& !self.read_only
        &&& self.default_bucket_options@ == BucketSettings::defaults()
        &&& self.durability == DurabilityMode::Buffered
        &&& self.write_buffer_bytes == 64 * 1024 * 1024
        &&& self.max_immutable_memtables == 4
        &&& self.target_table_bytes == 64 * 1024 * 1024
        &&& self.level_size_multiplier == 10
        &&& self.max_l0_files == 8
        &&& self.object_client_trust == ObjectClientTrustMode::Trusted
        &&& self.max_key_bytes == limits::MAX_DECODED_BLOCK_BYTES
        &&& self.max_value_bytes == limits::MAX_DECODED_BLOCK_BYTES
        &&& self.block_cache_bytes == 256 * 1024 * 1024
        &&& self.background_worker_count == 1
        &&& self.wal_shards == WalShardPolicy::Auto
        &&& self.runtime.mode == RuntimeMode::NativeThreads
        &&& self.fail_on_corruption == FailOnCorruptionPolicy::FailClosed
        &&& self.keep_last_read_versions == 1
        &&& self.blob_gc_enabled
        &&& self.blob_gc_discardable_ratio.millionths == 500_000
        &&& self.blob_gc_min_file_bytes == 64 * 1024 * 1024
    }

    /// Whether the options are the defaults of a native database at `path`.
    pub open spec fn is_persistent_at(self, path: Seq<char>) -> bool {
        &&& self.storage_mode matches StorageMode::Persistent { path: at } && at@ == path
        &&& self.durability == DurabilityMode::SyncAll
        &&& (DbOptions {
            storage_mode: StorageMode::InMemory,
            durability: DurabilityMode::Buffered,
            ..self
        }).is_default()
    }

    /// Whether the options are the defaults of a database on a host backend.
    pub open spec fn is_host_default(self) -> bool {
        &&& self.storage_mode is HostPersistent
        &&& self.background_worker_count == 0
        &&& self.durability == DurabilityMode::Flush
        &&& self.runtime.mode == RuntimeMode::Inline
        &&& (DbOptions {
            storage_mode: StorageMode::InMemory,
            background_worker_count: 1,
            durability: DurabilityMode::Buffered,
            runtime: RuntimeOptions { mode: RuntimeMode::NativeThreads },
            ..self
        }).is_default()
    }

    /// Creates persistent database options for `path`.
    ///
    /// It selects native filesystem storage, sets safety-first default durability
    /// for confirmed writes, and leaves `create_if_missing` enabled.
    pub fn new(path: String) -> (options: DbOptions)
        ensures
            options.is_persistent_at(path@),
    {
        DbOptions::persistent(path)
    }

    /// Creates in-memory database options.
    pub fn memory() -> (options: DbOptions)
        ensures
            options.is_default(),
    {
        DbOptions::default()
    }

    /// Creates persistent native-filesystem options for `path`.
    pub fn persistent(path: String) -> (options: DbOptions)
        ensures
            options.is_persistent_at(path@),
    {
        let mut options: DbOptions = DbOptions::default();
        options.storage_mode = StorageMode::Persistent { path };
        options.durability = DurabilityMode::SyncAll;
        options
    }

    fn host(backend: HostStorageBackend) -> (options: DbOptions)
        ensures
            options.is_host_default(),
            options.storage_mode == (StorageMode::HostPersistent { backend }),
    {
        let mut options: DbOptions = DbOptions::default();
        options.storage_mode = StorageMode::HostPersistent { backend };
        options.background_worker_count = 0;
        options.durability = DurabilityMode::Flush;
        options.runtime = RuntimeOptions::inline();
        options
    }

    /// Creates persistent WASI host-filesystem options for `path`.
    pub fn wasi_persistent(path: String) -> (options: DbOptions)
        ensures
            options.is_host_default(),
            options.storage_mode->backend is Wasi,
            options.storage_mode.spec_path() == Some(path@),
    {
        DbOptions::host(HostStorageBackend::Wasi { path })
    }

    /// Creates read-only WASI host-filesystem options for `path`.
    pub fn wasi_persistent_read_only(path: String) -> (options: DbOptions)
        ensures
            options.read_only && !options.create_if_missing,
            (DbOptions { read_only: false, create_if_missing: true, ..options }).is_host_default(),
            options.storage_mode->backend is Wasi,
            options.storage_mode.spec_path() == Some(path@),
    {
        DbOptions::wasi_persistent(path).read_only()
    }

    /// Creates browser persistent options.
    pub fn browser_persistent() -> (options: DbOptions)
        ensures
            options.is_host_default(),
            options.storage_mode->backend is Browser,
    {
        DbOptions::host(HostStorageBackend::Browser)
    }

    /// Creates object-storage persistent options (async-only). The object-store
    /// client is supplied to the async open, not encoded here.
    pub fn object_store() -> (options: DbOptions)
        ensures
            options.is_host_default(),
            options.storage_mode->backend is ObjectStore,
    {
        DbOptions::host(HostStorageBackend::ObjectStore)
    }

    /// Creates read-only browser persistent options.
    pub fn browser_persistent_read_only() -> (options: DbOptions)
        ensures
            options.read_only && !options.create_if_missing,
            (DbOptions { read_only: false, create_if_missing: true, ..options }).is_host_default(),
            options.storage_mode->backend is Browser,
    {
        DbOptions::browser_persistent().read_only()
    }

    /// Creates read-only native-filesystem options for `path`.
    pub fn persistent_read_only(path: String) -> (options: DbOptions)
        ensures
            options.read_only && !options.create_if_missing,
            (DbOptions { read_only: false, create_if_missing: true, ..options }).is_persistent_at(
                path@,
            ),
    {
        DbOptions::persistent(path).read_only()
    }

    /// Sets the default durability for writes that do not pass `WriteOptions`.
    pub fn with_durability(self, durability: DurabilityMode) -> (options: DbOptions)
        ensures
            options == (DbOptions { durability, ..self }),
    {
        let mut options: DbOptions = self;
        options.durability = durability;
        options
    }

    /// Sets the options used by the built-in default bucket.
    pub fn with_default_bucket_options(self, bucket: BucketOptions) -> (options: DbOptions)
        ensures
            options == (DbOptions { default_bucket_options: bucket, ..self }),
    {
        let mut options: DbOptions = self;
        options.default_bucket_options = bucket;
        options
    }

    /// Marks these options read-only and disables creation of missing storage.
    pub fn read_only(self) -> (options: DbOptions)
        ensures
            options == (DbOptions { read_only: true, create_if_missing: false, ..self }),
    {
        let mut options: DbOptions = self;
        options.read_only = true;
        options.create_if_missing = false;
        options
    }

    /// Sets how many recent read versions remain available without an active
    /// snapshot or named checkpoint pin.
    pub fn with_keep_last_read_versions(self, count: u64) -> (options: DbOptions)
        ensures
            options == (DbOptions { keep_last_read_versions: count, ..self }),
    {
        let mut options: DbOptions = self;
        options.keep_last_read_versions = count;
        options
    }

    /// Sets the WAL shard policy (see [`WalShardPolicy`]).
    pub fn with_wal_shards(self, policy: WalShardPolicy) -> (options: DbOptions)
        ensures
            options == (DbOptions { wal_shards: policy, ..self }),
    {
        let mut options: DbOptions = self;
        options.wal_shards = policy;
        options
    }

    /// Sets a fixed WAL shard (lane) count.
    pub fn with_wal_shard_count(self, count: usize) -> (options: DbOptions)
        ensures
            options == (DbOptions { wal_shards: WalShardPolicy::Fixed(count), ..self }),
    {
        let mut options: DbOptions = self;
        options.wal_shards = WalShardPolicy::Fixed(count);
        options
    }

    /// Sets how object-store opens treat the supplied object client.
    pub fn with_object_client_trust(self, trust: ObjectClientTrustMode) -> (options: DbOptions)
        ensures
            options == (DbOptions { object_client_trust: trust, ..self }),
    {
        let mut options: DbOptions = self;
        options.object_client_trust = trust;
        options
    }

    /// Sets the maximum user key length accepted by write APIs.
    pub fn with_max_key_bytes(self, max_key_bytes: usize) -> (options: DbOptions)
        ensures
            options == (DbOptions { max_key_bytes, ..self }),
    {
        let mut options: DbOptions = self;
        options.max_key_bytes = max_key_bytes;
        options
    }

    /// Sets the maximum user value length accepted by write APIs.
    pub fn with_max_value_bytes(self, max_value_bytes: usize) -> (options: DbOptions)
        ensures
            options == (DbOptions { max_value_bytes, ..self }),
    {
        let mut options: DbOptions = self;
        options.max_value_bytes = max_value_bytes;
        options
    }
}

impl Default for DbOptions {
    fn default() -> (options: DbOptions)
        ensures
            options.is_default(),
    {
        DbOptions {
            storage_mode: StorageMode::InMemory,
            create_if_missing: true,
            read_only: false,
            default_bucket_options: BucketOptions::default(),
            durability: DurabilityMode::Buffered,
            write_buffer_bytes: DbOptions::DEFAULT_WRITE_BUFFER_BYTES,
            max_immutable_memtables: 4,
            target_table_bytes: DbOptions::DEFAULT_TARGET_TABLE_BYTES,
            level_size_multiplier: 10,
            max_l0_files: 8,
            object_client_trust: ObjectClientTrustMode::default(),
            max_key_bytes: DbOptions::DEFAULT_MAX_KEY_BYTES,
            max_value_bytes: DbOptions::DEFAULT_MAX_VALUE_BYTES,
            block_cache_bytes: DbOptions::DEFAULT_BLOCK_CACHE_BYTES,
            background_worker_count: 1,
            wal_shards: WalShardPolicy::Auto,
            runtime: RuntimeOptions::default(),
            fail_on_corruption: FailOnCorruptionPolicy::FailClosed,
            keep_last_read_versions: DbOptions::DEFAULT_KEEP_LAST_READ_VERSIONS,
            blob_gc_enabled: true,
            blob_gc_discardable_ratio: BlobGcRatio::half(),
            blob_gc_min_file_bytes: DbOptions::DEFAULT_BLOB_GC_MIN_FILE_BYTES,
        }
    }
}

/// Policy for trusting or probing an object-store client during open.
///
/// This only affects object-store database opens. It does not change the
/// database file format, WAL format, or recovery rules.
#[derive(Debug, Clone, Copy, PartialEq, Eq, Structural)]
pub enum ObjectClientTrustMode {
    /// Trust that the supplied client satisfies Trine's object contract.
    Trusted,
    /// Run the object-client contract probe during each writable object-store open.
    VerifyOnOpen,
}

impl Default for ObjectClientTrustMode {
    fn default() -> (mode: ObjectClientTrustMode)
        ensures
            mode == ObjectClientTrustMode::Trusted,
    {
        ObjectClientTrustMode::Trusted
    }
}

/// Policy for choosing the number of WAL shards (independent append lanes).
///
/// Fewer lanes concentrate concurrent commits on one worker, so group commit
/// coalesces many commits under one fsync. More lanes spread commits across
/// files, which only helps when the hardware can flush multiple files in parallel.
#[derive(Debug, Clone, Copy, PartialEq, Eq, Structural)]
pub enum WalShardPolicy {
    /// Choose the lane count from the storage mode and the default durability:
    /// persistent storage that syncs every commit uses one lane, everything else a
    /// small parallel set.
    Auto,
    /// Use exactly this many lanes (clamped to at least one).
    Fixed(usize),
}

impl WalShardPolicy {
    /// Lane count used when [`WalShardPolicy::Auto`] does not pick per-commit
    /// fsync mode (no fsync per write, so parallel append lanes are harmless and
    /// can help).
    pub const AUTO_PARALLEL_LANES: usize = 4;

    /// Resolve the policy to a concrete lane count (always at least one) for the
    /// given storage mode and default durability.
    pub fn resolve(self, storage_mode: &StorageMode, durability: DurabilityMode) -> (lanes: usize)
        ensures
            lanes >= 1,
            match self {
                WalShardPolicy::Fixed(count) => lanes == if count == 0 {
                    1
                } else {
                    count
                },
                WalShardPolicy::Auto => lanes == if storage_mode is Persistent
                    && durability.spec_syncs_each_commit() {
                    1
                } else {
                    WalShardPolicy::AUTO_PARALLEL_LANES
                },
            },
    {
        match self {
            WalShardPolicy::Fixed(count) => {
                if count == 0 {
                    1
                } else {
                    count
                }
            },
            WalShardPolicy::Auto => {
                let persistent: bool = match storage_mode {
                    StorageMode::Persistent { .. } => true,
                    _ => false,
                };
                if persistent && durability.syncs_each_commit() {
                    // Group-commit regime: one lane lets the worker coalesce
                    // concurrent commits under a single fsync.
                    1
                } else {
                    WalShardPolicy::AUTO_PARALLEL_LANES
                }
            },
        }
    }
}

/// Ratio threshold used by blob garbage collection.
#[derive(Debug, Clone, Copy, PartialEq, Eq, Structural)]
pub struct BlobGcRatio {
    /// The ratio in millionths.
    pub millionths: u32,
}

impl BlobGcRatio {
    /// A 50% discardable-byte threshold.
    pub fn half() -> (ratio: BlobGcRatio)
        ensures
            ratio.millionths == 500_000,
    {
        BlobGcRatio { millionths: 500_000 }
    }

    /// A 100% discardable-byte threshold.
    pub fn full() -> (ratio: BlobGcRatio)
        ensures
            ratio.millionths == 1_000_000,
    {
        BlobGcRatio { millionths: 1_000_000 }
    }

    /// Creates a ratio from millionths, where `1_000_000` means 100%.
    pub fn from_millionths(millionths: u32) -> (ratio: BlobGcRatio)
        ensures
            ratio.millionths == millionths,
    {
        BlobGcRatio { millionths }
    }

    /// Returns this ratio in millionths.
    pub fn millionths(self) -> (millionths: u32)
        ensures
            millionths == self.millionths,
    {
        self.millionths
    }

    /// Tells whether the discardable share of a non-empty file reaches the ratio.
    pub fn should_collect(self, discardable_bytes: u64, total_bytes: u64) -> (collect: bool)
        ensures
            collect == (total_bytes != 0 && discardable_bytes * 1_000_000 >= total_bytes
                * self.millionths),
    {
        if total_bytes == 0 {
            return false;
        }
        let ratio: u32 = self.millionths;
        assert(total_bytes * ratio <= 0xffff_ffff_ffff_ffff * 0xffff_ffff) by (nonlinear_arith)
            requires
                total_bytes <= 0xffff_ffff_ffff_ffff,
                ratio <= 0xffff_ffff,
        ;
        (discardable_bytes as u128) * 1_000_000 >= (total_bytes as u128) * (ratio as u128)
    }
}

impl Default for BlobGcRatio {
    fn default() -> (ratio: BlobGcRatio)
        ensures
            ratio.millionths == 500_000,
    {
        BlobGcRatio::half()
    }
}

/// Policy for merging blob values back into table levels during compaction.
#[derive(Debug, Clone, Copy, PartialEq, Eq, Structural)]
pub enum BlobLevelMergePolicy {
    /// Keep blob values in blob files during compaction.
    Disabled,
    /// Let Trine decide based on level and value size.
    Auto,
    /// Always merge blob values back into table files when compacting.
    Always,
}

impl Default for BlobLevelMergePolicy {
    fn default() -> (policy: BlobLevelMergePolicy)
        ensures
            policy == BlobLevelMergePolicy::Auto,
    {
        BlobLevelMergePolicy::Auto
    }
}

/// Layered (Monkey-style) filter bits-per-element curve across LSM levels.
///
/// Both the point filter (`bits_per_key`) and the prefix filter
/// (`bits_per_prefix`) use this curve at write time.
#[derive(Debug, Clone, Copy, PartialEq, Eq, Structural)]
pub enum FilterDepthCurve {
    /// Built-in depth curve: deeper levels lose 2 bits each down to a floor of 4,
    /// shallow (pinned) levels keep the base. The recommended default.
    Auto,
    /// No curve: every level uses the base bits.
    Uniform,
    /// Custom depth curve: deeper levels lose `step` bits each, clamped to
    /// `floor` (and never above the base).
    Custom {
        /// Bits removed per level below the shallow (pinned) boundary.
        step: u8,
        /// Minimum bits per element for the deepest levels.
        floor: u8,
    },
    /// Cost-weighted (ascending) curve for remote/cold backends: deeper levels
    /// gain `step` bits each, clamped up to `ceil`.
    CostWeighted {
        /// Bits added per level below the shallow (pinned) boundary.
        step: u8,
        /// Maximum bits per element for the deepest levels.
        ceil: u8,
    },
}

impl Default for FilterDepthCurve {
    fn default() -> (curve: FilterDepthCurve)
        ensures
            curve == FilterDepthCurve::Auto,
    {
        FilterDepthCurve::Auto
    }
}

/// Options fixed for a bucket when the bucket is created.
#[derive(Debug, PartialEq, Eq)]
pub struct BucketOptions {
    /// Allow empty user keys.
    pub allow_empty_keys: bool,
    /// Compression profile used for table blocks.
    pub compression: CompressionProfile,
    /// Target uncompressed data-block size.
    pub block_bytes: usize,
    /// Point-read filter policy for table keys.
    pub filter_policy: FilterPolicy,
    /// Prefix extractor used by prefix filters.
    pub prefix_extractor: PrefixExtractor,
    /// Prefix-read filter policy.
    pub prefix_filter_policy: PrefixFilterPolicy,
    /// Search strategy used inside table indexes.
    pub index_search_policy: IndexSearchPolicy,
    /// Values at or above this size are stored in blob files.
    pub blob_threshold_bytes: usize,
    /// Policy for merging blob values during compaction.
    pub blob_level_merge_policy: BlobLevelMergePolicy,
    /// Layered (Monkey-style) filter bits-per-element curve across levels.
    pub filter_depth_curve: FilterDepthCurve,
}

/// Mathematical form of [`BucketOptions`].
pub struct BucketSettings {
    /// See [`BucketOptions`].
    pub allow_empty_keys: bool,
    /// See [`BucketOptions`].
    pub compression: CompressionProfile,
    /// See [`BucketOptions`].
    pub block_bytes: usize,
    /// See [`BucketOptions`].
    pub filter_policy: FilterPolicy,
    /// See [`BucketOptions`].
    pub prefix_extractor: PrefixRule,
    /// See [`BucketOptions`].
    pub prefix_filter_policy: PrefixFilterPolicy,
    /// See [`BucketOptions`].
    pub index_search_policy: IndexSearchPolicy,
    /// See [`BucketOptions`].
    pub blob_threshold_bytes: usize,
    /// See [`BucketOptions`].
    pub blob_level_merge_policy: BlobLevelMergePolicy,
    /// See [`BucketOptions`].
    pub filter_depth_curve: FilterDepthCurve,
}

impl View for BucketOptions {
    type V = BucketSettings;

    open spec fn view(&self) -> BucketSettings {
        BucketSettings {
            allow_empty_keys: self.allow_empty_keys,
            compression: self.compression,
            block_bytes: self.block_bytes,
            filter_policy: self.filter_policy,
            prefix_extractor: self.prefix_extractor@,
            prefix_filter_policy: self.prefix_filter_policy,
            index_search_policy: self.index_search_policy,
            blob_threshold_bytes: self.blob_threshold_bytes,
            blob_level_merge_policy: self.blob_level_merge_policy,
            filter_depth_curve: self.filter_depth_curve,
        }
    }
}

impl BucketSettings {
    /// The default settings.
    pub open spec fn defaults() -> BucketSettings {
        BucketSettings {
            allow_empty_keys: true,
            compression: CompressionProfile::Fast,
            block_bytes: 16384,
            filter_policy: FilterPolicy::Bloom { bits_per_key: 10 },
            prefix_extractor: PrefixRule::Disabled,
            prefix_filter_policy: PrefixFilterPolicy::Bloom { bits_per_prefix: 10 },
            index_search_policy: IndexSearchPolicy::Auto,
            blob_threshold_bytes: 1048576,
            blob_level_merge_policy: BlobLevelMergePolicy::Auto,
            filter_depth_curve: FilterDepthCurve::Auto,
        }
    }
}

impl Clone for BucketOptions {
    fn clone(&self) -> (result: BucketOptions)
        ensures
            result == *self,
    {
        BucketOptions {
            allow_empty_keys: self.allow_empty_keys,
            compression: self.compression,
            block_bytes: self.block_bytes,
            filter_policy: self.filter_policy,
            prefix_extractor: self.prefix_extractor.clone(),
            prefix_filter_policy: self.prefix_filter_policy,
            index_search_policy: self.index_search_policy,
            blob_threshold_bytes: self.blob_threshold_bytes,
            blob_level_merge_policy: self.blob_level_merge_policy,
            filter_depth_curve: self.filter_depth_curve,
        }
    }
}

impl BucketOptions {
    /// Tells whether two sets of options are the same.
    pub fn same(&self, other: &BucketOptions) -> (same: bool)
        ensures
            same == (self@ == other@),
    {
        self.allow_empty_keys == other.allow_empty_keys && self.compression == other.compression
            && self.block_bytes == other.block_bytes && self.filter_policy == other.filter_policy
            && self.prefix_extractor.same(&other.prefix_extractor) && self.prefix_filter_policy
            == other.prefix_filter_policy && self.index_search_policy == other.index_search_policy
            && self.blob_threshold_bytes == other.blob_threshold_bytes
            && self.blob_level_merge_policy == other.blob_level_merge_policy
            && self.filter_depth_curve == other.filter_depth_curve
    }

    /// Default target data-block size.
    pub const DEFAULT_BLOCK_BYTES: usize = 16 * 1024;

    /// Default threshold for storing values in blob files.
    pub const DEFAULT_BLOB_THRESHOLD_BYTES: usize = 1024 * 1024;

    /// Sets the prefix extractor for this bucket.
    pub fn with_prefix_extractor(self, prefix_extractor: PrefixExtractor) -> (options:
        BucketOptions)
        ensures
            options == (BucketOptions { prefix_extractor, ..self }),
    {
        let mut options: BucketOptions = self;
        options.prefix_extractor = prefix_extractor;
        options
    }

    /// Sets the value-size threshold for blob storage.
    pub fn with_blob_threshold_bytes(self, blob_threshold_bytes: usize) -> (options: BucketOptions)
        ensures
            options == (BucketOptions { blob_threshold_bytes, ..self }),
    {
        let mut options: BucketOptions = self;
        options.blob_threshold_bytes = blob_threshold_bytes;
        options
    }

    /// Sets the blob-level merge policy.
    pub fn with_blob_level_merge_policy(self, policy: BlobLevelMergePolicy) -> (options:
        BucketOptions)
        ensures
            options == (BucketOptions { blob_level_merge_policy: policy, ..self }),
    {
        let mut options: BucketOptions = self;
        options.blob_level_merge_policy = policy;
        options
    }

    /// Enables or disables blob-level merge with a boolean convenience flag.
    pub fn with_blob_level_merge_enabled(self, enabled: bool) -> (options: BucketOptions)
        ensures
            options == (BucketOptions {
                blob_level_merge_policy: if enabled {
                    BlobLevelMergePolicy::Always
                } else {
                    BlobLevelMergePolicy::Disabled
                },
                ..self
            }),
    {
        let mut options: BucketOptions = self;
        options.blob_level_merge_policy = if enabled {
            BlobLevelMergePolicy::Always
        } else {
            BlobLevelMergePolicy::Disabled
        };
        options
    }

    /// Sets the layered filter bits-per-element curve (see [`FilterDepthCurve`]).
    pub fn with_filter_depth_curve(self, curve: FilterDepthCurve) -> (options: BucketOptions)
        ensures
            options == (BucketOptions { filter_depth_curve: curve, ..self }),
    {
        let mut options: BucketOptions = self;
        options.filter_depth_curve = curve;
        options
    }
}

impl Default for BucketOptions {
    fn default() -> (options: BucketOptions)
        ensures
            options@ == BucketSettings::defaults(),
    {
        BucketOptions {
            allow_empty_keys: true,
            compression: CompressionProfile::Fast,
            block_bytes: BucketOptions::DEFAULT_BLOCK_BYTES,
            filter_policy: FilterPolicy::default(),
            prefix_extractor: PrefixExtractor::default(),
            prefix_filter_policy: PrefixFilterPolicy::default(),
            index_search_policy: IndexSearchPolicy::Auto,
            blob_threshold_bytes: BucketOptions::DEFAULT_BLOB_THRESHOLD_BYTES,
            blob_level_merge_policy: BlobLevelMergePolicy::Auto,
            filter_depth_curve: FilterDepthCurve::Auto,
        }
    }
}

/// Per-write options passed to commit operations.
///
/// `WriteOptions` lets a single write or batch request a durability level
/// different from the database default.
#[derive(Debug, Clone, Copy, PartialEq, Eq, Structural)]
pub struct WriteOptions {
    /// Durability requested for this write.
    pub durability: DurabilityMode,
}

impl WriteOptions {
    /// Creates write options with an explicit durability mode.
    pub fn new(durability: DurabilityMode) -> (options: WriteOptions)
        ensures
            options.durability == durability,
    {
        WriteOptions { durability }
    }

    /// Creates buffered write options.
    pub fn buffered() -> (options: WriteOptions)
        ensures
            options.durability == DurabilityMode::Buffered,
    {
        WriteOptions::new(DurabilityMode::Buffered)
    }

    /// Creates flush write options.
    pub fn flush() -> (options: WriteOptions)
        ensures
            options.durability == DurabilityMode::Flush,
    {
        WriteOptions::new(DurabilityMode::Flush)
    }

    /// Creates data-sync write options.
    pub fn sync_data() -> (options: WriteOptions)
        ensures
            options.durability == DurabilityMode::SyncData,
    {
        WriteOptions::new(DurabilityMode::SyncData)
    }

    /// Creates full-sync write options (non-strict).
    pub fn sync_all() -> (options: WriteOptions)
        ensures
            options.durability == DurabilityMode::SyncAll,
    {
        WriteOptions::new(DurabilityMode::SyncAll)
    }

    /// Creates strict full-sync write options.
    pub fn sync_all_strict() -> (options: WriteOptions)
        ensures
            options.durability == DurabilityMode::SyncAllStrict,
    {
        WriteOptions::new(DurabilityMode::SyncAllStrict)
    }
}

impl Default for WriteOptions {
    fn default() -> (options: WriteOptions)
        ensures
            options.durability == DurabilityMode::Buffered,
    {
        WriteOptions::buffered()
    }
}

} // verus!
