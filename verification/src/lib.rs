//! Trine KV is an embedded LSM MVCC key-value database.

pub mod blob;
pub mod bytes_order;
pub mod checksum;
pub mod codec;
pub mod error;
pub mod internal_key;
pub mod io;
pub mod iterator;
pub mod keyspace;
pub mod limits;
pub mod lsm;
pub mod manifest;
pub mod memtable;
pub mod mvcc;
pub mod object_store;
pub mod options;
pub mod ordered;
pub mod point_value;
pub mod prefix;
pub mod range_tombstone;
pub mod runtime;
pub mod selector;
pub mod snapshot;
pub mod table;
pub mod text;
pub mod types;
pub mod write_batch;

pub use crate::error::{Error, Result};
pub use crate::iterator::Iter;
pub use crate::keyspace::{Keyspace, KeyspaceName};
pub use crate::object_store::memory::InMemoryObjectStore;
pub use crate::object_store::{ETag, ObjectClient, ObjectMeta, Precondition, PutIf};
pub use crate::options::{
    BlobGcRatio, BlobLevelMergePolicy, BucketOptions, CompressionProfile, DbOptions,
    DurabilityMode, FailOnCorruptionPolicy, FilterDepthCurve, FilterPolicy, HostStorageBackend,
    IndexSearchPolicy, PrefixFilterPolicy, StorageMode, WalShardPolicy, WriteOptions,
};
pub use crate::point_value::PointValue;
pub use crate::prefix::PrefixExtractor;
pub use crate::runtime::{RuntimeMode, RuntimeOptions};
pub use crate::selector::Direction;
pub use crate::snapshot::Snapshot;
pub use crate::types::{KeyRange, KeyValue};
