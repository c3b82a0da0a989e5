//! The byte layout of a manifest, and writing it.
use std::collections::BTreeMap;
use vstd::bytes;
use vstd::prelude::*;
use vstd::string::*;
use vstd::utf8::*;

use crate::checksum;
use crate::codec::CodecId;
use crate::error;
use crate::error::{Error, ErrorKind, Result};
use crate::internal_key::{InternalKey, RecordKey, ValueKind};
use crate::limits;
use crate::manifest::state;
use crate::manifest::state::{Manifest, ManifestState};
use crate::options::{
    BlobLevelMergePolicy, BucketOptions, BucketSettings, CompressionProfile, FilterDepthCurve,
    FilterPolicy, IndexSearchPolicy, PrefixFilterPolicy,
};
use crate::ordered;
use crate::ordered::{list_id_pairs, NameMap};
use crate::prefix::{PrefixExtractor, PrefixRule};
use crate::table;
use crate::table::{BlobReference, TableBlobReference, TableProperties, TableSummary};
use crate::text;
use crate::types::Sequence;

verus! {

/// First four bytes of a manifest, as a number.
pub const MANIFEST_MAGIC: u32 = 0x5452_4d46;

/// Version of the layout.
pub const MANIFEST_VERSION: u16 = 2;

/// Length of the header in front of the payload.
pub const HEADER_LEN: usize = 14;

/// Fewest bytes that the properties of one table take.
pub const MIN_TABLE_PROPERTY_BYTES: usize = 45;

// Each function below gives the bytes of a value followed by `tail`.

/// A byte.
pub open spec fn enc_u8(value: u8, tail: Seq<u8>) -> Seq<u8> {
    seq![value] + tail
}

/// A 32-bit number, lowest byte first.
pub open spec fn enc_u32(value: u32, tail: Seq<u8>) -> Seq<u8> {
    bytes::spec_u32_to_le_bytes(value) + tail
}

/// A 64-bit number, lowest byte first.
pub open spec fn enc_u64(value: u64, tail: Seq<u8>) -> Seq<u8> {
    bytes::spec_u64_to_le_bytes(value) + tail
}

/// A length or size, as a 64-bit number.
pub open spec fn enc_usize(value: usize, tail: Seq<u8>) -> Seq<u8> {
    enc_u64(value as u64, tail)
}

/// Bytes behind their 32-bit length.
pub open spec fn enc_bytes(value: Seq<u8>, tail: Seq<u8>) -> Seq<u8> {
    enc_u32(value.len() as u32, value + tail)
}

/// Whether the length of bytes fits its field.
pub open spec fn fits(value: Seq<u8>) -> bool {
    value.len() <= u32::MAX
}

/// A name, as its UTF-8 bytes.
pub open spec fn enc_name(value: Seq<char>, tail: Seq<u8>) -> Seq<u8> {
    enc_bytes(encode_utf8(value), tail)
}

/// Whether the length of a name fits its field.
pub open spec fn name_fits(value: Seq<char>) -> bool {
    fits(encode_utf8(value))
}

/// A flag.
pub open spec fn enc_bool(value: bool, tail: Seq<u8>) -> Seq<u8> {
    enc_u8(
        if value {
            1
        } else {
            0
        },
        tail,
    )
}

/// A compression profile.
pub open spec fn enc_compression(value: CompressionProfile, tail: Seq<u8>) -> Seq<u8> {
    enc_u8(
        match value {
            CompressionProfile::Uncompressed => 0,
            CompressionProfile::Fast => 1,
        },
        tail,
    )
}

/// A key filter.
pub open spec fn enc_filter(value: FilterPolicy, tail: Seq<u8>) -> Seq<u8> {
    match value {
        FilterPolicy::Disabled => enc_u8(0, tail),
        FilterPolicy::Bloom { bits_per_key } => enc_u8(1, enc_u8(bits_per_key, tail)),
    }
}

/// A prefix rule.
pub open spec fn enc_prefix(value: PrefixRule, tail: Seq<u8>) -> Seq<u8> {
    match value {
        PrefixRule::FixedLen(len) => enc_u8(0, enc_usize(len, tail)),
        PrefixRule::Separator(separator) => enc_u8(1, enc_u8(separator, tail)),
        PrefixRule::Custom(name) => enc_u8(2, enc_name(name, tail)),
        PrefixRule::Disabled => enc_u8(3, tail),
    }
}

/// Whether a prefix rule fits its field.
pub open spec fn prefix_fits(value: PrefixRule) -> bool {
    match value {
        PrefixRule::Custom(name) => name_fits(name),
        _ => true,
    }
}

/// A prefix filter.
pub open spec fn enc_prefix_filter(value: PrefixFilterPolicy, tail: Seq<u8>) -> Seq<u8> {
    match value {
        PrefixFilterPolicy::Disabled => enc_u8(0, tail),
        PrefixFilterPolicy::Bloom { bits_per_prefix } => enc_u8(1, enc_u8(bits_per_prefix, tail)),
    }
}

/// An index search policy.
pub open spec fn enc_index_search(value: IndexSearchPolicy, tail: Seq<u8>) -> Seq<u8> {
    enc_u8(
        match value {
            IndexSearchPolicy::Linear => 0,
            IndexSearchPolicy::Binary => 1,
            IndexSearchPolicy::Auto => 4,
        },
        tail,
    )
}

/// A blob merge policy.
pub open spec fn enc_blob_merge(value: BlobLevelMergePolicy, tail: Seq<u8>) -> Seq<u8> {
    enc_u8(
        match value {
            BlobLevelMergePolicy::Disabled => 0,
            BlobLevelMergePolicy::Auto => 1,
            BlobLevelMergePolicy::Always => 2,
        },
        tail,
    )
}

/// A filter curve.
pub open spec fn enc_curve(value: FilterDepthCurve, tail: Seq<u8>) -> Seq<u8> {
    match value {
        FilterDepthCurve::Auto => enc_u8(0, tail),
        FilterDepthCurve::Uniform => enc_u8(1, tail),
        FilterDepthCurve::Custom { step, floor } => enc_u8(2, enc_u8(step, enc_u8(floor, tail))),
        FilterDepthCurve::CostWeighted { step, ceil } => enc_u8(
            3,
            enc_u8(step, enc_u8(ceil, tail)),
        ),
    }
}

/// The options of a bucket.
pub open spec fn enc_options(value: BucketSettings, tail: Seq<u8>) -> Seq<u8> {
    enc_bool(
        value.allow_empty_keys,
        enc_compression(
            value.compression,
            enc_usize(
                value.block_bytes,
                enc_filter(
                    value.filter_policy,
                    enc_prefix(
                        value.prefix_extractor,
                        enc_prefix_filter(
                            value.prefix_filter_policy,
                            enc_index_search(
                                value.index_search_policy,
                                enc_usize(
                                    value.blob_threshold_bytes,
                                    enc_blob_merge(
                                        value.blob_level_merge_policy,
                                        enc_curve(value.filter_depth_curve, tail),
                                    ),
                                ),
                            ),
                        ),
                    ),
                ),
            ),
        ),
    )
}

/// A block codec.
pub open spec fn enc_codec(value: CodecId, tail: Seq<u8>) -> Seq<u8> {
    enc_u8(
        match value {
            CodecId::Uncompressed => 0,
            CodecId::FastLz4Block => 1,
        },
        tail,
    )
}

/// What a record does.
pub open spec fn enc_kind(value: ValueKind, tail: Seq<u8>) -> Seq<u8> {
    enc_u8(
        match value {
            ValueKind::Put => 1,
            ValueKind::PointDelete => 2,
            ValueKind::RangeDelete => 3,
        },
        tail,
    )
}

/// The key of a record.
pub open spec fn enc_key(value: RecordKey, tail: Seq<u8>) -> Seq<u8> {
    enc_bytes(
        value.user_key,
        enc_u64(value.sequence.0, enc_kind(value.kind, enc_u32(value.batch_index, tail))),
    )
}

/// The items of a list, one behind the other.
pub open spec fn enc_items<T>(
    items: Seq<T>,
    enc: spec_fn(T, Seq<u8>) -> Seq<u8>,
    tail: Seq<u8>,
) -> Seq<u8>
    decreases items.len(),
{
    if items.len() == 0 {
        tail
    } else {
        enc(items[0], enc_items(items.drop_first(), enc, tail))
    }
}

/// How a file identifier is written.
pub open spec fn id_layout() -> spec_fn(u64, Seq<u8>) -> Seq<u8> {
    |id: u64, tail: Seq<u8>| enc_u64(id, tail)
}

/// A blob reference.
pub open spec fn enc_reference(value: BlobReference, tail: Seq<u8>) -> Seq<u8> {
    enc_u64(
        value.file_id,
        enc_u64(
            value.referenced_bytes,
            enc_u64(
                value.referenced_record_count,
                enc_key(value.smallest_internal_key, enc_key(value.largest_internal_key, tail)),
            ),
        ),
    )
}

/// Whether a blob reference fits its fields.
pub open spec fn reference_fits(value: BlobReference) -> bool {
    fits(value.smallest_internal_key.user_key) && fits(value.largest_internal_key.user_key)
}

/// How a blob reference is written.
pub open spec fn reference_layout() -> spec_fn(BlobReference, Seq<u8>) -> Seq<u8> {
    |value: BlobReference, tail: Seq<u8>| enc_reference(value, tail)
}

/// The properties of a table.
pub open spec fn enc_table(value: TableSummary, tail: Seq<u8>) -> Seq<u8> {
    enc_u64(
        value.id.0,
        enc_u32(
            value.level.0,
            enc_bytes(
                value.smallest_user_key,
                enc_bytes(
                    value.largest_user_key,
                    enc_u64(
                        value.smallest_sequence.0,
                        enc_u64(
                            value.largest_sequence.0,
                            enc_codec(value.codec, enc_table_blobs(value, tail)),
                        ),
                    ),
                ),
            ),
        ),
    )
}

/// The blob files of a table.
pub open spec fn enc_table_blobs(value: TableSummary, tail: Seq<u8>) -> Seq<u8> {
    enc_u32(
        value.blob_file_ids.len() as u32,
        enc_items(
            value.blob_file_ids,
            id_layout(),
            enc_u32(
                value.blob_references.len() as u32,
                enc_items(value.blob_references, reference_layout(), tail),
            ),
        ),
    )
}

/// Whether the properties of a table fit their fields.
pub open spec fn table_fits(value: TableSummary) -> bool {
    &&& fits(value.smallest_user_key)
    &&& fits(value.largest_user_key)
    &&& value.blob_file_ids.len() <= u32::MAX
    &&& value.blob_references.len() <= u32::MAX
    &&& forall|i: int|
        0 <= i < value.blob_references.len() ==> reference_fits(
            #[trigger] value.blob_references[i],
        )
}

/// How the properties of a table are written.
pub open spec fn table_layout() -> spec_fn(TableSummary, Seq<u8>) -> Seq<u8> {
    |value: TableSummary, tail: Seq<u8>| enc_table(value, tail)
}

/// A bucket with its tables.
pub open spec fn enc_table_bucket(value: (Seq<char>, Seq<TableSummary>), tail: Seq<u8>) -> Seq<u8> {
    enc_name(value.0, enc_u32(value.1.len() as u32, enc_items(value.1, table_layout(), tail)))
}

/// Whether a bucket with its tables fits its fields.
pub open spec fn table_bucket_fits(value: (Seq<char>, Seq<TableSummary>)) -> bool {
    &&& name_fits(value.0)
    &&& value.1.len() <= u32::MAX
    &&& forall|i: int| 0 <= i < value.1.len() ==> table_fits(#[trigger] value.1[i])
}

/// How a bucket with its tables is written.
pub open spec fn table_bucket_layout() -> spec_fn((Seq<char>, Seq<TableSummary>), Seq<u8>) -> Seq<
    u8,
> {
    |value: (Seq<char>, Seq<TableSummary>), tail: Seq<u8>| enc_table_bucket(value, tail)
}

/// A bucket with its options and its incarnation.
pub struct BucketRow {
    /// Name of the bucket.
    pub name: Seq<char>,
    /// Options of the bucket.
    pub options: BucketSettings,
    /// Incarnation of the bucket.
    pub generation: u64,
}

/// A bucket with its options and its incarnation.
pub open spec fn enc_bucket(value: BucketRow, tail: Seq<u8>) -> Seq<u8> {
    enc_name(value.name, enc_options(value.options, enc_u64(value.generation, tail)))
}

/// Whether a bucket fits its fields.
pub open spec fn bucket_fits(value: BucketRow) -> bool {
    name_fits(value.name) && prefix_fits(value.options.prefix_extractor)
}

/// How a bucket is written.
pub open spec fn bucket_layout() -> spec_fn(BucketRow, Seq<u8>) -> Seq<u8> {
    |value: BucketRow, tail: Seq<u8>| enc_bucket(value, tail)
}

/// The buckets of a manifest whose generations belong to its buckets.
pub open spec fn bucket_rows(manifest: Manifest) -> Seq<BucketRow> {
    Seq::new(
        manifest.buckets.len(),
        |i: int|
            BucketRow {
                name: manifest.buckets[i].0,
                options: manifest.buckets[i].1,
                generation: manifest.bucket_generations[i].1,
            },
    )
}

/// How a pending blob deletion is written.
pub open spec fn pending_layout() -> spec_fn((u64, Sequence), Seq<u8>) -> Seq<u8> {
    |value: (u64, Sequence), tail: Seq<u8>| enc_u64(value.0, enc_u64(value.1.0, tail))
}

/// How a checkpoint is written.
pub open spec fn checkpoint_layout() -> spec_fn((Seq<char>, Sequence), Seq<u8>) -> Seq<u8> {
    |value: (Seq<char>, Sequence), tail: Seq<u8>| enc_name(value.0, enc_u64(value.1.0, tail))
}

/// The payload of a manifest.
pub open spec fn payload_of(manifest: Manifest) -> Seq<u8> {
    enc_u64(
        manifest.wal_replay_floor.0,
        enc_u32(
            manifest.buckets.len() as u32,
            enc_items(bucket_rows(manifest), bucket_layout(), payload_tables(manifest)),
        ),
    )
}

/// The payload of a manifest behind its buckets.
pub open spec fn payload_tables(manifest: Manifest) -> Seq<u8> {
    enc_u32(
        manifest.tables.len() as u32,
        enc_items(manifest.tables, table_bucket_layout(), payload_pending(manifest)),
    )
}

/// The payload of a manifest behind its tables.
pub open spec fn payload_pending(manifest: Manifest) -> Seq<u8> {
    enc_u32(
        manifest.pending_blob_deletions.len() as u32,
        enc_items(
            manifest.pending_blob_deletions,
            pending_layout(),
            payload_checkpoints(manifest),
        ),
    )
}

/// The payload of a manifest behind its pending deletions.
pub open spec fn payload_checkpoints(manifest: Manifest) -> Seq<u8> {
    enc_u32(
        manifest.checkpoints.len() as u32,
        enc_items(manifest.checkpoints, checkpoint_layout(), payload_counters(manifest)),
    )
}

/// The payload of a manifest behind its checkpoints.
pub open spec fn payload_counters(manifest: Manifest) -> Seq<u8> {
    enc_u64(
        manifest.writer_epoch,
        enc_u64(
            manifest.next_file_id,
            enc_u64(manifest.next_bucket_generation, Seq::empty()),
        ),
    )
}

/// Whether every count and length of a manifest fits its field.
pub open spec fn manifest_fits(manifest: Manifest) -> bool {
    &&& manifest.buckets.len() <= u32::MAX
    &&& forall|i: int|
        0 <= i < manifest.buckets.len() ==> bucket_fits(#[trigger] bucket_rows(manifest)[i])
    &&& manifest.tables.len() <= u32::MAX
    &&& forall|i: int|
        0 <= i < manifest.tables.len() ==> table_bucket_fits(#[trigger] manifest.tables[i])
    &&& manifest.pending_blob_deletions.len() <= u32::MAX
    &&& manifest.checkpoints.len() <= u32::MAX
    &&& forall|i: int|
        0 <= i < manifest.checkpoints.len() ==> name_fits((#[trigger] manifest.checkpoints[i]).0)
}

/// The header of a manifest with its payload.
pub open spec fn framed(payload: Seq<u8>) -> Seq<u8> {
    bytes::spec_u32_to_le_bytes(MANIFEST_MAGIC) + (bytes::spec_u16_to_le_bytes(MANIFEST_VERSION) + (
    bytes::spec_u32_to_le_bytes(payload.len() as u32) + (bytes::spec_u32_to_le_bytes(
        checksum::checksum_of(payload),
    ) + payload)))
}

/// A list with one more item is the list followed by the item.
pub proof fn items_push<T>(
    items: Seq<T>,
    item: T,
    enc: spec_fn(T, Seq<u8>) -> Seq<u8>,
    tail: Seq<u8>,
)
    ensures
        enc_items(items.push(item), enc, tail) == enc_items(items, enc, enc(item, tail)),
    decreases items.len(),
{
    let longer = items.push(item);
    if items.len() == 0 {
        assert(longer.drop_first() =~= Seq::<T>::empty());
        assert(enc_items(longer.drop_first(), enc, tail) == tail);
    } else {
        assert(longer.drop_first() =~= items.drop_first().push(item));
        items_push(items.drop_first(), item, enc, tail);
    }
}

/// Appends a byte.
pub fn put_u8(bytes: &mut Vec<u8>, value: u8)
    ensures
        forall|tail: Seq<u8>| #[trigger] (final(bytes)@ + tail) == old(bytes)@ + enc_u8(value, tail),
{
    let ghost before = bytes@;
    bytes.push(value);
    proof {
        assert forall|tail: Seq<u8>| #[trigger] (bytes@ + tail) == before + enc_u8(value, tail) by {
            assert(bytes@ + tail =~= before + enc_u8(value, tail));
        }
    }
}

/// Appends a flag.
pub fn put_bool(bytes: &mut Vec<u8>, value: bool)
    ensures
        forall|tail: Seq<u8>| #[trigger]
            (final(bytes)@ + tail) == old(bytes)@ + enc_bool(value, tail),
{
    put_u8(
        bytes,
        if value {
            1
        } else {
            0
        },
    );
}

/// Appends a 32-bit number.
pub fn put_u32(bytes: &mut Vec<u8>, value: u32)
    ensures
        forall|tail: Seq<u8>| #[trigger]
            (final(bytes)@ + tail) == old(bytes)@ + enc_u32(value, tail),
{
    let ghost before = bytes@;
    let mut encoded: Vec<u8> = bytes::u32_to_le_bytes(value);
    bytes.append(&mut encoded);
    proof {
        assert forall|tail: Seq<u8>| #[trigger] (bytes@ + tail) == before + enc_u32(value, tail) by {
            assert(bytes@ + tail =~= before + enc_u32(value, tail));
        }
    }
}

/// Appends a 64-bit number.
pub fn put_u64(bytes: &mut Vec<u8>, value: u64)
    ensures
        forall|tail: Seq<u8>| #[trigger]
            (final(bytes)@ + tail) == old(bytes)@ + enc_u64(value, tail),
{
    let ghost before = bytes@;
    let mut encoded: Vec<u8> = bytes::u64_to_le_bytes(value);
    bytes.append(&mut encoded);
    proof {
        assert forall|tail: Seq<u8>| #[trigger] (bytes@ + tail) == before + enc_u64(value, tail) by {
            assert(bytes@ + tail =~= before + enc_u64(value, tail));
        }
    }
}

/// Appends a length or size.
pub fn put_usize(bytes: &mut Vec<u8>, value: usize) -> (result: Result<()>)
    ensures
        result is Ok,
        forall|tail: Seq<u8>| #[trigger]
            (final(bytes)@ + tail) == old(bytes)@ + enc_usize(value, tail),
{
    put_u64(bytes, value as u64);
    Ok(())
}

/// What is wrong with a field of bytes that is too long.
pub open spec fn too_long() -> Seq<char> {
    "manifest byte field exceeds u32::MAX"@
}

/// What does not fit in the properties of a table.
pub open spec fn table_misfit(value: TableSummary) -> Option<Seq<char>> {
    if !fits(value.smallest_user_key) || !fits(value.largest_user_key) {
        Some(too_long())
    } else if value.blob_file_ids.len() > u32::MAX {
        Some("too many blob file ids for table properties"@)
    } else if value.blob_references.len() > u32::MAX {
        Some("too many blob references for table properties"@)
    } else if !table_fits(value) {
        Some(too_long())
    } else {
        None
    }
}

/// See [`table_misfit`].
pub open spec fn table_misfits() -> spec_fn(TableSummary) -> Option<Seq<char>> {
    |value: TableSummary| table_misfit(value)
}

/// What does not fit in a bucket with its tables.
pub open spec fn table_bucket_misfit(value: (Seq<char>, Seq<TableSummary>)) -> Option<Seq<char>> {
    if !name_fits(value.0) {
        Some(too_long())
    } else if value.1.len() > u32::MAX {
        Some("too many tables for manifest bucket"@)
    } else {
        error::first_fault(value.1, table_misfits())
    }
}

/// See [`table_bucket_misfit`].
pub open spec fn table_bucket_misfits() -> spec_fn((Seq<char>, Seq<TableSummary>)) -> Option<
    Seq<char>,
> {
    |value: (Seq<char>, Seq<TableSummary>)| table_bucket_misfit(value)
}

/// What does not fit in the tables of all buckets.
pub open spec fn tables_misfit(tables: Seq<(Seq<char>, Seq<TableSummary>)>) -> Option<Seq<char>> {
    if tables.len() > u32::MAX {
        Some("too many table buckets for manifest"@)
    } else {
        error::first_fault(tables, table_bucket_misfits())
    }
}

/// What does not fit in the buckets.
pub open spec fn buckets_misfit(manifest: Manifest) -> Option<Seq<char>> {
    if manifest.buckets.len() > u32::MAX {
        Some("too many buckets for manifest"@)
    } else if exists|i: int|
        0 <= i < manifest.buckets.len() && !bucket_fits(#[trigger] bucket_rows(manifest)[i]) {
        Some(too_long())
    } else {
        None
    }
}

/// What does not fit in the checkpoints.
pub open spec fn checkpoints_misfit(checkpoints: Seq<(Seq<char>, Sequence)>) -> Option<Seq<char>> {
    if checkpoints.len() > u32::MAX {
        Some("too many checkpoints for manifest"@)
    } else if exists|i: int|
        0 <= i < checkpoints.len() && !name_fits((#[trigger] checkpoints[i]).0) {
        Some(too_long())
    } else {
        None
    }
}

/// What does not fit in a manifest, in the order in which its fields are written.
pub open spec fn misfit(manifest: Manifest) -> Option<Seq<char>> {
    if buckets_misfit(manifest) is Some {
        buckets_misfit(manifest)
    } else if tables_misfit(manifest.tables) is Some {
        tables_misfit(manifest.tables)
    } else if manifest.pending_blob_deletions.len() > u32::MAX {
        Some("too many pending blob deletions for manifest"@)
    } else {
        checkpoints_misfit(manifest.checkpoints)
    }
}

/// Why a manifest cannot be written.
pub open spec fn write_fault(manifest: Manifest) -> Option<(ErrorKind, Seq<char>)> {
    match manifest.file_id_fault() {
        Some(text) => Some((ErrorKind::Corruption, text)),
        None => match manifest.buckets_fault() {
            Some(text) => Some((ErrorKind::Corruption, text)),
            None => match misfit(manifest) {
                Some(text) => Some((ErrorKind::InvalidOptions, text)),
                None => None,
            },
        },
    }
}

/// Why a manifest cannot be published.
pub open spec fn publish_fault(manifest: Manifest) -> Option<(ErrorKind, Seq<char>)> {
    match write_fault(manifest) {
        Some(fault) => Some(fault),
        None => if payload_of(manifest).len() > limits::MAX_MANIFEST_PAYLOAD_BYTES {
            Some(
                (
                    ErrorKind::InvalidOptions,
                    "manifest payload length "@ + text::decimal(payload_of(manifest).len())
                        + " exceeds maximum "@ + text::decimal(
                        limits::MAX_MANIFEST_PAYLOAD_BYTES as nat,
                    ),
                ),
            )
        } else {
            None
        },
    }
}

/// Whether an error reports a fault.
pub open spec fn reports(error: Error, fault: Option<(ErrorKind, Seq<char>)>) -> bool {
    fault matches Some((kind, text)) && error.says(kind, text)
}

proof fn faults_keep_from_writing(manifest: Manifest)
    ensures
        write_fault(manifest) is None <==> can_be_written(manifest),
        misfit(manifest) is None <==> manifest_fits(manifest),
        tables_misfit(manifest.tables) is None <==> manifest.tables.len() <= u32::MAX && forall|
            i: int,
        |
            0 <= i < manifest.tables.len() ==> table_bucket_fits(#[trigger] manifest.tables[i]),
{
    state::faultless_files_are_sound(manifest);
    error::fault_is_of_an_item(manifest.tables, table_bucket_misfits());
    assert forall|i: int| 0 <= i < manifest.tables.len() implies (table_bucket_misfit(
        #[trigger] manifest.tables[i],
    ) is None <==> table_bucket_fits(manifest.tables[i])) by {
        let list = manifest.tables[i].1;
        error::fault_is_of_an_item(list, table_misfits());
        assert forall|j: int| 0 <= j < list.len() implies (table_misfits()(#[trigger] list[j])
            is None <==> table_fits(list[j])) by {}
    }
    assert forall|i: int| 0 <= i < manifest.tables.len() implies (table_bucket_misfits()(
        #[trigger] manifest.tables[i],
    ) is None <==> table_bucket_fits(manifest.tables[i])) by {}
}

/// Appends bytes behind their length.
pub fn put_bytes(bytes: &mut Vec<u8>, value: &[u8]) -> (result: Result<()>)
    ensures
        match result {
            Ok(_) => fits(value@) && forall|tail: Seq<u8>| #[trigger]
                (final(bytes)@ + tail) == old(bytes)@ + enc_bytes(value@, tail),
            Err(error) => !fits(value@) && error.says(
                ErrorKind::InvalidOptions,
                "manifest byte field exceeds u32::MAX"@,
            ),
        },
{
    if value.len() > u32::MAX as usize {
        return Err(Error::invalid_options("manifest byte field exceeds u32::MAX"));
    }
    let ghost before = bytes@;
    put_u32(bytes, value.len() as u32);
    let ghost middle = bytes@;
    bytes.extend_from_slice(value);
    proof {
        assert forall|tail: Seq<u8>| #[trigger]
            (bytes@ + tail) == before + enc_bytes(value@, tail) by {
            assert(bytes@ + tail =~= middle + (value@ + tail));
        }
    }
    Ok(())
}

/// Appends a compression profile.
pub fn put_compression_profile(bytes: &mut Vec<u8>, value: CompressionProfile)
    ensures
        forall|tail: Seq<u8>| #[trigger]
            (final(bytes)@ + tail) == old(bytes)@ + enc_compression(value, tail),
{
    put_u8(
        bytes,
        match value {
            CompressionProfile::Uncompressed => 0,
            CompressionProfile::Fast => 1,
        },
    );
}

/// Appends a key filter.
pub fn put_filter_policy(bytes: &mut Vec<u8>, value: FilterPolicy)
    ensures
        forall|tail: Seq<u8>| #[trigger]
            (final(bytes)@ + tail) == old(bytes)@ + enc_filter(value, tail),
{
    match value {
        FilterPolicy::Disabled => put_u8(bytes, 0),
        FilterPolicy::Bloom { bits_per_key } => {
            put_u8(bytes, 1);
            put_u8(bytes, bits_per_key);
        },
    }
}

/// Appends a prefix rule.
pub fn put_prefix_extractor(bytes: &mut Vec<u8>, value: &PrefixExtractor) -> (result: Result<()>)
    ensures
        match result {
            Ok(_) => prefix_fits(value@) && forall|tail: Seq<u8>| #[trigger]
                (final(bytes)@ + tail) == old(bytes)@ + enc_prefix(value@, tail),
            Err(error) => !prefix_fits(value@) && error.says(
                ErrorKind::InvalidOptions,
                "manifest byte field exceeds u32::MAX"@,
            ),
        },
{
    match value {
        PrefixExtractor::FixedLen(len) => {
            put_u8(bytes, 0);
            put_usize(bytes, *len)
        },
        PrefixExtractor::Separator(separator) => {
            put_u8(bytes, 1);
            put_u8(bytes, *separator);
            Ok(())
        },
        PrefixExtractor::Custom(name) => {
            put_u8(bytes, 2);
            put_bytes(bytes, name.as_str().as_bytes())
        },
        PrefixExtractor::Disabled => {
            put_u8(bytes, 3);
            Ok(())
        },
    }
}

/// Appends a prefix filter.
pub fn put_prefix_filter_policy(bytes: &mut Vec<u8>, value: PrefixFilterPolicy)
    ensures
        forall|tail: Seq<u8>| #[trigger]
            (final(bytes)@ + tail) == old(bytes)@ + enc_prefix_filter(value, tail),
{
    match value {
        PrefixFilterPolicy::Disabled => put_u8(bytes, 0),
        PrefixFilterPolicy::Bloom { bits_per_prefix } => {
            put_u8(bytes, 1);
            put_u8(bytes, bits_per_prefix);
        },
    }
}

/// Appends an index search policy.
pub fn put_index_search_policy(bytes: &mut Vec<u8>, value: IndexSearchPolicy)
    ensures
        forall|tail: Seq<u8>| #[trigger]
            (final(bytes)@ + tail) == old(bytes)@ + enc_index_search(value, tail),
{
    put_u8(
        bytes,
        match value {
            IndexSearchPolicy::Linear => 0,
            IndexSearchPolicy::Binary => 1,
            IndexSearchPolicy::Auto => 4,
        },
    );
}

/// Appends a blob merge policy.
pub fn put_blob_level_merge_policy(bytes: &mut Vec<u8>, value: BlobLevelMergePolicy)
    ensures
        forall|tail: Seq<u8>| #[trigger]
            (final(bytes)@ + tail) == old(bytes)@ + enc_blob_merge(value, tail),
{
    put_u8(
        bytes,
        match value {
            BlobLevelMergePolicy::Disabled => 0,
            BlobLevelMergePolicy::Auto => 1,
            BlobLevelMergePolicy::Always => 2,
        },
    );
}

/// Appends a filter curve.
pub fn put_filter_depth_curve(bytes: &mut Vec<u8>, value: FilterDepthCurve)
    ensures
        forall|tail: Seq<u8>| #[trigger]
            (final(bytes)@ + tail) == old(bytes)@ + enc_curve(value, tail),
{
    match value {
        FilterDepthCurve::Auto => put_u8(bytes, 0),
        FilterDepthCurve::Uniform => put_u8(bytes, 1),
        FilterDepthCurve::Custom { step, floor } => {
            put_u8(bytes, 2);
            put_u8(bytes, step);
            put_u8(bytes, floor);
        },
        FilterDepthCurve::CostWeighted { step, ceil } => {
            put_u8(bytes, 3);
            put_u8(bytes, step);
            put_u8(bytes, ceil);
        },
    }
}

/// Appends the options of a bucket.
pub fn put_bucket_options(bytes: &mut Vec<u8>, options: &BucketOptions) -> (result: Result<()>)
    ensures
        match result {
            Ok(_) => prefix_fits(options@.prefix_extractor) && forall|tail: Seq<u8>| #[trigger]
                (final(bytes)@ + tail) == old(bytes)@ + enc_options(options@, tail),
            Err(error) => !prefix_fits(options@.prefix_extractor) && error.says(
                ErrorKind::InvalidOptions,
                "manifest byte field exceeds u32::MAX"@,
            ),
        },
{
    put_bool(bytes, options.allow_empty_keys);
    put_compression_profile(bytes, options.compression);
    put_u64(bytes, options.block_bytes as u64);
    put_filter_policy(bytes, options.filter_policy);
    match put_prefix_extractor(bytes, &options.prefix_extractor) {
        Ok(_) => {},
        Err(error) => {
            return Err(error);
        },
    }
    put_prefix_filter_policy(bytes, options.prefix_filter_policy);
    put_index_search_policy(bytes, options.index_search_policy);
    put_u64(bytes, options.blob_threshold_bytes as u64);
    put_blob_level_merge_policy(bytes, options.blob_level_merge_policy);
    put_filter_depth_curve(bytes, options.filter_depth_curve);
    Ok(())
}

/// Appends a block codec.
pub fn put_codec(bytes: &mut Vec<u8>, codec: CodecId)
    ensures
        forall|tail: Seq<u8>| #[trigger]
            (final(bytes)@ + tail) == old(bytes)@ + enc_codec(codec, tail),
{
    put_u8(
        bytes,
        match codec {
            CodecId::Uncompressed => 0,
            CodecId::FastLz4Block => 1,
        },
    );
}

/// Appends the key of a record.
pub fn put_internal_key(bytes: &mut Vec<u8>, internal_key: &InternalKey) -> (result: Result<()>)
    ensures
        match result {
            Ok(_) => fits(internal_key@.user_key) && forall|tail: Seq<u8>| #[trigger]
                (final(bytes)@ + tail) == old(bytes)@ + enc_key(internal_key@, tail),
            Err(error) => !fits(internal_key@.user_key) && error.says(
                ErrorKind::InvalidOptions,
                "manifest byte field exceeds u32::MAX"@,
            ),
        },
{
    match put_bytes(bytes, internal_key.user_key()) {
        Ok(_) => {},
        Err(error) => {
            return Err(error);
        },
    }
    put_u64(bytes, internal_key.sequence().get());
    put_u8(
        bytes,
        match internal_key.kind() {
            ValueKind::Put => 1,
            ValueKind::PointDelete => 2,
            ValueKind::RangeDelete => 3,
        },
    );
    put_u32(bytes, internal_key.batch_index());
    Ok(())
}

fn put_ids(bytes: &mut Vec<u8>, ids: &Vec<u64>)
    ensures
        forall|tail: Seq<u8>| #[trigger]
            (final(bytes)@ + tail) == old(bytes)@ + enc_items(ids@, id_layout(), tail),
{
    let ghost start = bytes@;
    let mut i: usize = 0;
    while i < ids.len()
        invariant
            i <= ids@.len(),
            forall|tail: Seq<u8>| #[trigger]
                (bytes@ + tail) == start + enc_items(ids@.take(i as int), id_layout(), tail),
        decreases ids@.len() - i,
    {
        let ghost before = bytes@;
        put_u64(bytes, ids[i]);
        proof {
            let done = ids@.take(i as int);
            assert(ids@.take(i + 1) =~= done.push(ids@[i as int]));
            assert forall|tail: Seq<u8>| #[trigger] (bytes@ + tail) == start + enc_items(
                ids@.take(i + 1),
                id_layout(),
                tail,
            ) by {
                items_push(done, ids@[i as int], id_layout(), tail);
                assert(bytes@ + tail == before + enc_u64(ids@[i as int], tail));
            }
        }
        i += 1;
    }
    proof {
        assert(ids@.take(i as int) =~= ids@);
    }
}

fn put_reference(bytes: &mut Vec<u8>, reference: &TableBlobReference) -> (result: Result<()>)
    ensures
        match result {
            Ok(_) => reference_fits(reference@) && forall|tail: Seq<u8>| #[trigger]
                (final(bytes)@ + tail) == old(bytes)@ + enc_reference(reference@, tail),
            Err(error) => !reference_fits(reference@) && error.says(
                ErrorKind::InvalidOptions,
                "manifest byte field exceeds u32::MAX"@,
            ),
        },
{
    put_u64(bytes, reference.file_id);
    put_u64(bytes, reference.referenced_bytes);
    put_u64(bytes, reference.referenced_record_count);
    match put_internal_key(bytes, &reference.smallest_internal_key) {
        Ok(_) => put_internal_key(bytes, &reference.largest_internal_key),
        Err(error) => Err(error),
    }
}

fn put_references(bytes: &mut Vec<u8>, list: &Vec<TableBlobReference>) -> (result: Result<()>)
    ensures
        match result {
            Ok(_) => {
                &&& forall|i: int|
                    0 <= i < list@.len() ==> reference_fits(
                        #[trigger] table::references_of(list@)[i],
                    )
                &&& forall|tail: Seq<u8>| #[trigger]
                    (final(bytes)@ + tail) == old(bytes)@ + enc_items(
                        table::references_of(list@),
                        reference_layout(),
                        tail,
                    )
            },
            Err(error) => {
                &&& exists|i: int|
                    0 <= i < list@.len() && !reference_fits(
                        #[trigger] table::references_of(list@)[i],
                    )
                &&& error.says(
                    ErrorKind::InvalidOptions,
                    "manifest byte field exceeds u32::MAX"@,
                )
            },
        },
{
    let ghost start = bytes@;
    let ghost items = table::references_of(list@);
    let mut i: usize = 0;
    while i < list.len()
        invariant
            items == table::references_of(list@),
            i <= list@.len(),
            forall|j: int| 0 <= j < i ==> reference_fits(#[trigger] items[j]),
            forall|tail: Seq<u8>| #[trigger]
                (bytes@ + tail) == start + enc_items(
                    items.take(i as int),
                    reference_layout(),
                    tail,
                ),
        decreases list@.len() - i,
    {
        let ghost before = bytes@;
        assert(items[i as int] == list@[i as int]@);
        match put_reference(bytes, &list[i]) {
            Ok(_) => {},
            Err(error) => {
                assert(!reference_fits(items[i as int]));
                return Err(error);
            },
        }
        proof {
            let done = items.take(i as int);
            assert(items.take(i + 1) =~= done.push(items[i as int]));
            assert forall|tail: Seq<u8>| #[trigger] (bytes@ + tail) == start + enc_items(
                items.take(i + 1),
                reference_layout(),
                tail,
            ) by {
                items_push(done, items[i as int], reference_layout(), tail);
                assert(bytes@ + tail == before + enc_reference(items[i as int], tail));
            }
        }
        i += 1;
    }
    proof {
        assert(items.take(i as int) =~= items);
    }
    Ok(())
}

/// Appends the properties of a table.
pub fn put_table_properties(bytes: &mut Vec<u8>, properties: &TableProperties) -> (result: Result<
    (),
>)
    ensures
        match result {
            Ok(_) => table_fits(properties@) && forall|tail: Seq<u8>| #[trigger]
                (final(bytes)@ + tail) == old(bytes)@ + enc_table(properties@, tail),
            Err(error) => table_misfit(properties@) matches Some(text) && error.says(
                ErrorKind::InvalidOptions,
                text,
            ),
        },
{
    put_u64(bytes, properties.id.get());
    put_u32(bytes, properties.level.get());
    match put_bytes(bytes, properties.smallest_user_key.as_slice()) {
        Ok(_) => {},
        Err(error) => {
            return Err(error);
        },
    }
    match put_bytes(bytes, properties.largest_user_key.as_slice()) {
        Ok(_) => {},
        Err(error) => {
            return Err(error);
        },
    }
    put_u64(bytes, properties.smallest_sequence.get());
    put_u64(bytes, properties.largest_sequence.get());
    put_codec(bytes, properties.codec);
    if properties.blob_file_ids.len() > u32::MAX as usize {
        return Err(Error::invalid_options("too many blob file ids for table properties"));
    }
    put_u32(bytes, properties.blob_file_ids.len() as u32);
    put_ids(bytes, &properties.blob_file_ids);
    if properties.blob_references.len() > u32::MAX as usize {
        assert(properties@.blob_references.len() > u32::MAX);
        return Err(Error::invalid_options("too many blob references for table properties"));
    }
    put_u32(bytes, properties.blob_references.len() as u32);
    assert(properties@.blob_references.len() == properties.blob_references@.len());
    match put_references(bytes, &properties.blob_references) {
        Ok(_) => Ok(()),
        Err(error) => Err(error),
    }
}

fn put_table_list(bytes: &mut Vec<u8>, list: &Vec<TableProperties>) -> (result: Result<()>)
    ensures
        match result {
            Ok(_) => {
                &&& forall|i: int| 0 <= i < list@.len() ==> table_fits(#[trigger] list.deep_view()[i])
                &&& forall|tail: Seq<u8>| #[trigger]
                    (final(bytes)@ + tail) == old(bytes)@ + enc_items(
                        list.deep_view(),
                        table_layout(),
                        tail,
                    )
            },
            Err(error) => error::first_fault(list.deep_view(), table_misfits()) matches Some(text)
                && error.says(ErrorKind::InvalidOptions, text),
        },
{
    let ghost start = bytes@;
    let ghost items = list.deep_view();
    let mut i: usize = 0;
    while i < list.len()
        invariant
            items == list.deep_view(),
            i <= list@.len(),
            forall|j: int| 0 <= j < i ==> table_fits(#[trigger] items[j]),
            error::first_fault(items.take(i as int), table_misfits()) is None,
            forall|tail: Seq<u8>| #[trigger]
                (bytes@ + tail) == start + enc_items(items.take(i as int), table_layout(), tail),
        decreases list@.len() - i,
    {
        let ghost before = bytes@;
        proof {
            assert(items[i as int] == list@[i as int]@);
            error::one_more_item(items, table_misfits(), i as int);
        }
        match put_table_properties(bytes, &list[i]) {
            Ok(_) => {},
            Err(error) => {
                proof {
                    error::first_fault_stays(items, table_misfits(), i + 1);
                }
                return Err(error);
            },
        }
        proof {
            let done = items.take(i as int);
            assert(items.take(i + 1) =~= done.push(items[i as int]));
            assert forall|tail: Seq<u8>| #[trigger] (bytes@ + tail) == start + enc_items(
                items.take(i + 1),
                table_layout(),
                tail,
            ) by {
                items_push(done, items[i as int], table_layout(), tail);
                assert(bytes@ + tail == before + enc_table(items[i as int], tail));
            }
        }
        i += 1;
    }
    proof {
        assert(items.take(i as int) =~= items);
    }
    Ok(())
}

/// Appends the tables of all buckets.
pub fn put_tables(bytes: &mut Vec<u8>, tables: &NameMap<Vec<TableProperties>>) -> (result: Result<
    (),
>)
    ensures
        match result {
            Ok(_) => {
                &&& tables.pairs().len() <= u32::MAX
                &&& forall|i: int|
                    0 <= i < tables.pairs().len() ==> table_bucket_fits(
                        #[trigger] tables.pairs()[i],
                    )
                &&& forall|tail: Seq<u8>| #[trigger]
                    (final(bytes)@ + tail) == old(bytes)@ + enc_u32(
                        tables.pairs().len() as u32,
                        enc_items(tables.pairs(), table_bucket_layout(), tail),
                    )
            },
            Err(error) => tables_misfit(tables.pairs()) matches Some(text) && error.says(
                ErrorKind::InvalidOptions,
                text,
            ),
        },
{
    if tables.len() > u32::MAX as usize {
        return Err(Error::invalid_options("too many table buckets for manifest"));
    }
    let ghost items = tables.pairs();
    let ghost begin = bytes@;
    put_u32(bytes, tables.len() as u32);
    let ghost start = bytes@;
    let mut i: usize = 0;
    while i < tables.len()
        invariant
            items == tables.pairs(),
            i <= items.len(),
            items.len() <= u32::MAX,
            forall|j: int| 0 <= j < i ==> table_bucket_fits(#[trigger] items[j]),
            error::first_fault(items.take(i as int), table_bucket_misfits()) is None,
            forall|tail: Seq<u8>| #[trigger]
                (bytes@ + tail) == start + enc_items(
                    items.take(i as int),
                    table_bucket_layout(),
                    tail,
                ),
        decreases items.len() - i,
    {
        let ghost before = bytes@;
        let ghost item = items[i as int];
        proof {
            error::one_more_item(items, table_bucket_misfits(), i as int);
            if table_bucket_misfit(item) is Some {
                error::first_fault_stays(items, table_bucket_misfits(), i + 1);
            }
            error::fault_is_of_an_item(item.1, table_misfits());
        }
        match put_bytes(bytes, tables.name_at(i).as_bytes()) {
            Ok(_) => {},
            Err(error) => {
                return Err(error);
            },
        }
        let list: &Vec<TableProperties> = tables.value_at(i);
        assert(list.deep_view().len() == list@.len());
        if list.len() > u32::MAX as usize {
            return Err(Error::invalid_options("too many tables for manifest bucket"));
        }
        put_u32(bytes, list.len() as u32);
        match put_table_list(bytes, list) {
            Ok(_) => {},
            Err(error) => {
                return Err(error);
            },
        }
        proof {
            let done = items.take(i as int);
            assert(items.take(i + 1) =~= done.push(item));
            assert forall|tail: Seq<u8>| #[trigger] (bytes@ + tail) == start + enc_items(
                items.take(i + 1),
                table_bucket_layout(),
                tail,
            ) by {
                items_push(done, item, table_bucket_layout(), tail);
                assert(bytes@ + tail == before + enc_table_bucket(item, tail));
            }
        }
        i += 1;
    }
    proof {
        assert(items.take(i as int) =~= items);
    }
    Ok(())
}

/// Appends the pending blob deletions.
pub fn put_pending_blob_deletions(
    bytes: &mut Vec<u8>,
    pending: &BTreeMap<u64, Sequence>,
) -> (result: Result<()>)
    ensures
        match result {
            Ok(_) => ordered::id_pairs(pending@).len() <= u32::MAX && forall|tail: Seq<u8>| #[trigger]
                (final(bytes)@ + tail) == old(bytes)@ + enc_u32(
                    ordered::id_pairs(pending@).len() as u32,
                    enc_items(ordered::id_pairs(pending@), pending_layout(), tail),
                ),
            Err(error) => ordered::id_pairs(pending@).len() > u32::MAX && error.says(
                ErrorKind::InvalidOptions,
                "too many pending blob deletions for manifest"@,
            ),
        },
{
    let pending: Vec<(u64, Sequence)> = list_id_pairs(pending);
    if pending.len() > u32::MAX as usize {
        return Err(Error::invalid_options("too many pending blob deletions for manifest"));
    }
    let ghost items = pending@;
    put_u32(bytes, pending.len() as u32);
    let ghost start = bytes@;
    let mut i: usize = 0;
    while i < pending.len()
        invariant
            items == pending@,
            i <= items.len(),
            forall|tail: Seq<u8>| #[trigger]
                (bytes@ + tail) == start + enc_items(items.take(i as int), pending_layout(), tail),
        decreases items.len() - i,
    {
        let ghost before = bytes@;
        let (id, sequence): (u64, Sequence) = pending[i];
        put_u64(bytes, id);
        put_u64(bytes, sequence.get());
        proof {
            let done = items.take(i as int);
            let item = items[i as int];
            assert(items.take(i + 1) =~= done.push(item));
            assert forall|tail: Seq<u8>| #[trigger] (bytes@ + tail) == start + enc_items(
                items.take(i + 1),
                pending_layout(),
                tail,
            ) by {
                items_push(done, item, pending_layout(), tail);
                assert(bytes@ + tail == before + pending_layout()(item, tail));
            }
        }
        i += 1;
    }
    proof {
        assert(items.take(i as int) =~= items);
    }
    Ok(())
}

/// Appends the checkpoints.
pub fn put_checkpoints(bytes: &mut Vec<u8>, checkpoints: &NameMap<Sequence>) -> (result: Result<()>)
    ensures
        match result {
            Ok(_) => {
                &&& checkpoints.pairs().len() <= u32::MAX
                &&& forall|i: int|
                    0 <= i < checkpoints.pairs().len() ==> name_fits(
                        (#[trigger] checkpoints.pairs()[i]).0,
                    )
                &&& forall|tail: Seq<u8>| #[trigger]
                    (final(bytes)@ + tail) == old(bytes)@ + enc_u32(
                        checkpoints.pairs().len() as u32,
                        enc_items(checkpoints.pairs(), checkpoint_layout(), tail),
                    )
            },
            Err(error) => checkpoints_misfit(checkpoints.pairs()) matches Some(text) && error.says(
                ErrorKind::InvalidOptions,
                text,
            ),
        },
{
    if checkpoints.len() > u32::MAX as usize {
        return Err(Error::invalid_options("too many checkpoints for manifest"));
    }
    let ghost items = checkpoints.pairs();
    put_u32(bytes, checkpoints.len() as u32);
    let ghost start = bytes@;
    let mut i: usize = 0;
    while i < checkpoints.len()
        invariant
            items == checkpoints.pairs(),
            i <= items.len() <= u32::MAX,
            forall|j: int| 0 <= j < i ==> name_fits((#[trigger] items[j]).0),
            forall|tail: Seq<u8>| #[trigger]
                (bytes@ + tail) == start + enc_items(
                    items.take(i as int),
                    checkpoint_layout(),
                    tail,
                ),
        decreases items.len() - i,
    {
        let ghost before = bytes@;
        match put_bytes(bytes, checkpoints.name_at(i).as_bytes()) {
            Ok(_) => {},
            Err(error) => {
                assert(!name_fits(items[i as int].0));
                return Err(error);
            },
        }
        put_u64(bytes, checkpoints.value_at(i).get());
        proof {
            let done = items.take(i as int);
            let item = items[i as int];
            assert(items.take(i + 1) =~= done.push(item));
            assert forall|tail: Seq<u8>| #[trigger] (bytes@ + tail) == start + enc_items(
                items.take(i + 1),
                checkpoint_layout(),
                tail,
            ) by {
                items_push(done, item, checkpoint_layout(), tail);
                assert(bytes@ + tail == before + checkpoint_layout()(item, tail));
            }
        }
        i += 1;
    }
    proof {
        assert(items.take(i as int) =~= items);
    }
    Ok(())
}

fn put_buckets(bytes: &mut Vec<u8>, state: &ManifestState) -> (result: Result<()>)
    requires
        state::names_of(state@.bucket_generations) == state::names_of(state@.buckets),
    ensures
        match result {
            Ok(_) => {
                &&& state@.buckets.len() <= u32::MAX
                &&& forall|i: int|
                    0 <= i < state@.buckets.len() ==> bucket_fits(
                        #[trigger] bucket_rows(state@)[i],
                    )
                &&& forall|tail: Seq<u8>| #[trigger]
                    (final(bytes)@ + tail) == old(bytes)@ + enc_u32(
                        state@.buckets.len() as u32,
                        enc_items(bucket_rows(state@), bucket_layout(), tail),
                    )
            },
            Err(error) => buckets_misfit(state@) matches Some(text) && error.says(
                ErrorKind::InvalidOptions,
                text,
            ),
        },
{
    if state.buckets.len() > u32::MAX as usize {
        return Err(Error::invalid_options("too many buckets for manifest"));
    }
    let ghost items = bucket_rows(state@);
    put_u32(bytes, state.buckets.len() as u32);
    let ghost start = bytes@;
    let mut i: usize = 0;
    proof {
        assert(state::names_of(state@.bucket_generations).len() == state@.bucket_generations.len());
        assert(state::names_of(state@.buckets).len() == state@.buckets.len());
    }
    while i < state.buckets.len()
        invariant
            items == bucket_rows(state@),
            state.bucket_generations.pairs().len() == state.buckets.pairs().len(),
            i <= items.len() <= u32::MAX,
            forall|j: int| 0 <= j < i ==> bucket_fits(#[trigger] items[j]),
            forall|tail: Seq<u8>| #[trigger]
                (bytes@ + tail) == start + enc_items(items.take(i as int), bucket_layout(), tail),
        decreases items.len() - i,
    {
        let ghost before = bytes@;
        let ghost item = items[i as int];
        match put_bytes(bytes, state.buckets.name_at(i).as_bytes()) {
            Ok(_) => {},
            Err(error) => {
                assert(!bucket_fits(items[i as int]));
                return Err(error);
            },
        }
        match put_bucket_options(bytes, state.buckets.value_at(i)) {
            Ok(_) => {},
            Err(error) => {
                assert(!bucket_fits(items[i as int]));
                return Err(error);
            },
        }
        put_u64(bytes, *state.bucket_generations.value_at(i));
        proof {
            let done = items.take(i as int);
            assert(items.take(i + 1) =~= done.push(item));
            assert forall|tail: Seq<u8>| #[trigger] (bytes@ + tail) == start + enc_items(
                items.take(i + 1),
                bucket_layout(),
                tail,
            ) by {
                items_push(done, item, bucket_layout(), tail);
                assert(bytes@ + tail == before + enc_bucket(item, tail));
            }
        }
        i += 1;
    }
    proof {
        assert(items.take(i as int) =~= items);
    }
    Ok(())
}

/// Whether a manifest can be written: its rules hold and its fields fit.
pub open spec fn can_be_written(manifest: Manifest) -> bool {
    manifest.files_reserved() && manifest.buckets_sound() && manifest_fits(manifest)
}

/// Writes the payload of a manifest.
pub fn encode_state(state: &ManifestState) -> (result: Result<Vec<u8>>)
    ensures
        match result {
            Ok(payload) => can_be_written(state@) && payload@ == payload_of(state@),
            Err(error) => !can_be_written(state@) && reports(error, write_fault(state@)),
        },
{
    proof {
        faults_keep_from_writing(state@);
    }
    match state.validate_next_file_id() {
        Ok(_) => {},
        Err(error) => {
            return Err(error);
        },
    }
    match state.validate_bucket_generations() {
        Ok(_) => {},
        Err(error) => {
            return Err(error);
        },
    }
    proof {
        state::faultless_files_are_sound(state@);
        assert(state@.file_id_fault() is None);
        assert(state@.buckets_fault() is None);
    }
    let mut bytes: Vec<u8> = Vec::new();
    let ghost empty = bytes@;
    put_u64(&mut bytes, state.wal_replay_floor.get());
    match put_buckets(&mut bytes, state) {
        Ok(_) => {},
        Err(error) => {
            return Err(error);
        },
    }
    assert(buckets_misfit(state@) is None);
    match put_tables(&mut bytes, &state.tables) {
        Ok(_) => {},
        Err(error) => {
            return Err(error);
        },
    }
    assert(tables_misfit(state@.tables) is None);
    match put_pending_blob_deletions(&mut bytes, &state.pending_blob_deletions) {
        Ok(_) => {},
        Err(error) => {
            return Err(error);
        },
    }
    match put_checkpoints(&mut bytes, &state.checkpoints) {
        Ok(_) => {},
        Err(error) => {
            return Err(error);
        },
    }
    put_u64(&mut bytes, state.writer_epoch);
    put_u64(&mut bytes, state.next_file_id);
    put_u64(&mut bytes, state.next_bucket_generation);
    proof {
        assert(bytes@ + Seq::<u8>::empty() =~= bytes@);
        assert(bytes@ + Seq::<u8>::empty() == empty + payload_of(state@));
        assert(empty + payload_of(state@) =~= payload_of(state@));
    }
    Ok(bytes)
}

/// Whether a manifest can be written within the size limit.
pub open spec fn can_be_published(manifest: Manifest) -> bool {
    can_be_written(manifest) && payload_of(manifest).len() <= limits::MAX_MANIFEST_PAYLOAD_BYTES
}

/// Writes a manifest with its header.
pub fn encode_manifest_bytes(state: &ManifestState) -> (result: Result<Vec<u8>>)
    ensures
        match result {
            Ok(encoded) => can_be_published(state@) && encoded@ == framed(payload_of(state@)),
            Err(error) => !can_be_published(state@) && reports(error, publish_fault(state@)),
        },
{
    proof {
        faults_keep_from_writing(state@);
    }
    let payload: Vec<u8> = match encode_state(state) {
        Ok(payload) => payload,
        Err(error) => {
            return Err(error);
        },
    };
    if payload.len() > limits::MAX_MANIFEST_PAYLOAD_BYTES {
        let mut message: String = text::join_number(
            "manifest payload length ",
            payload.len() as u64,
            " exceeds maximum ",
        );
        text::push_decimal(&mut message, limits::MAX_MANIFEST_PAYLOAD_BYTES as u64);
        return Err(Error::InvalidOptions { message });
    }
    let payload_checksum: u32 = checksum::crc32c(payload.as_slice());
    let mut encoded: Vec<u8> = bytes::u32_to_le_bytes(MANIFEST_MAGIC);
    encoded.extend_from_slice(bytes::u16_to_le_bytes(MANIFEST_VERSION).as_slice());
    encoded.extend_from_slice(bytes::u32_to_le_bytes(payload.len() as u32).as_slice());
    encoded.extend_from_slice(bytes::u32_to_le_bytes(payload_checksum).as_slice());
    encoded.extend_from_slice(payload.as_slice());
    proof {
        assert(encoded@ =~= framed(payload@));
    }
    Ok(encoded)
}

} // verus!
