//! Reading the byte layout of a manifest.
use std::collections::BTreeMap;
use vstd::bytes;
use vstd::prelude::*;
use vstd::slice::{slice_subrange, slice_to_vec};
use vstd::string::*;
use vstd::utf8::*;

use crate::bytes_order::KeyOrder;
use crate::checksum;
use crate::codec::CodecId;
use crate::error::{Error, ErrorKind, Result};
use crate::internal_key::{InternalKey, RecordKey, ValueKind};
use crate::limits;
use crate::manifest::encode;
use crate::manifest::encode::BucketRow;
use crate::manifest::faults;
use crate::manifest::faults::Parsed;
use crate::manifest::state;
use crate::manifest::state::{Manifest, ManifestState};
use crate::options::{
    BlobLevelMergePolicy, BucketOptions, BucketSettings, CompressionProfile, FilterDepthCurve,
    FilterPolicy, IndexSearchPolicy, PrefixFilterPolicy,
};
use crate::ordered;
use crate::ordered::NameMap;
use crate::prefix::{PrefixExtractor, PrefixRule};
use crate::table;
use crate::table::{
    BlobReference, TableBlobReference, TableId, TableLevel, TableProperties, TableSummary,
};
use crate::text;
use crate::types::Sequence;

verus! {

/// Whether identifiers are strictly increasing.
pub open spec fn increasing(ids: Seq<u64>) -> bool {
    forall|i: int, j: int| 0 <= i < j < ids.len() ==> #[trigger] ids[i] < #[trigger] ids[j]
}

/// Whether blob references are strictly increasing by file.
pub open spec fn references_increasing(list: Seq<BlobReference>) -> bool {
    forall|i: int, j: int|
        0 <= i < j < list.len() ==> (#[trigger] list[i]).file_id < (#[trigger] list[j]).file_id
}

/// Whether a blob reference fits its fields and its keys are in order.
pub open spec fn reference_readable(value: BlobReference) -> bool {
    encode::reference_fits(value) && !value.largest_internal_key.lt(value.smallest_internal_key)
}

/// Whether the properties of a table fit their fields and name blob files in order.
pub open spec fn table_readable(value: TableSummary) -> bool {
    &&& encode::table_fits(value)
    &&& increasing(value.blob_file_ids)
    &&& references_increasing(value.blob_references)
    &&& forall|i: int|
        0 <= i < value.blob_references.len() ==> reference_readable(
            #[trigger] value.blob_references[i],
        )
}

/// Whether a bucket with its tables can be read.
pub open spec fn table_bucket_readable(value: (Seq<char>, Seq<TableSummary>)) -> bool {
    &&& encode::table_bucket_fits(value)
    &&& forall|i: int| 0 <= i < value.1.len() ==> table_readable(#[trigger] value.1[i])
}

/// Whether a checkpoint can be read.
pub open spec fn checkpoint_readable(value: (Seq<char>, Sequence)) -> bool {
    encode::name_fits(value.0) && value.0.len() > 0
}

/// Whether a manifest can be written and read back.
pub open spec fn readable(manifest: Manifest) -> bool {
    encode::can_be_written(manifest) && laid_out(manifest)
}

/// Whether the fields of a manifest are ones that can be read, whatever its rules say of them.
pub open spec fn laid_out(manifest: Manifest) -> bool {
    &&& has_layout(manifest)
    &&& manifest.sorted()
    &&& forall|i: int|
        0 <= i < manifest.tables.len() ==> table_bucket_readable(#[trigger] manifest.tables[i])
    &&& forall|i: int|
        0 <= i < manifest.checkpoints.len() ==> checkpoint_readable(
            #[trigger] manifest.checkpoints[i],
        )
}

proof fn u8_is_unique(a: u8, t: Seq<u8>, b: u8, u: Seq<u8>)
    requires
        encode::enc_u8(a, t) == encode::enc_u8(b, u),
    ensures
        a == b,
        t == u,
{
    let whole = encode::enc_u8(a, t);
    assert(whole[0] == a);
    assert(encode::enc_u8(b, u)[0] == b);
    assert(t =~= whole.subrange(1, whole.len() as int));
    assert(u =~= whole.subrange(1, whole.len() as int));
}

proof fn u32_is_unique(a: u32, t: Seq<u8>, b: u32, u: Seq<u8>)
    requires
        encode::enc_u32(a, t) == encode::enc_u32(b, u),
    ensures
        a == b,
        t == u,
{
    bytes::lemma_auto_spec_u32_to_from_le_bytes();
    let whole = encode::enc_u32(a, t);
    let left = bytes::spec_u32_to_le_bytes(a);
    let right = bytes::spec_u32_to_le_bytes(b);
    assert(left =~= whole.subrange(0, 4));
    assert(right =~= whole.subrange(0, 4));
    assert(bytes::spec_u32_from_le_bytes(left) == a);
    assert(bytes::spec_u32_from_le_bytes(right) == b);
    assert(t =~= whole.subrange(4, whole.len() as int));
    assert(u =~= whole.subrange(4, whole.len() as int));
}

proof fn u64_is_unique(a: u64, t: Seq<u8>, b: u64, u: Seq<u8>)
    requires
        encode::enc_u64(a, t) == encode::enc_u64(b, u),
    ensures
        a == b,
        t == u,
{
    bytes::lemma_auto_spec_u64_to_from_le_bytes();
    let whole = encode::enc_u64(a, t);
    let left = bytes::spec_u64_to_le_bytes(a);
    let right = bytes::spec_u64_to_le_bytes(b);
    assert(left =~= whole.subrange(0, 8));
    assert(right =~= whole.subrange(0, 8));
    assert(bytes::spec_u64_from_le_bytes(left) == a);
    assert(bytes::spec_u64_from_le_bytes(right) == b);
    assert(t =~= whole.subrange(8, whole.len() as int));
    assert(u =~= whole.subrange(8, whole.len() as int));
}

proof fn bytes_are_unique(a: Seq<u8>, t: Seq<u8>, b: Seq<u8>, u: Seq<u8>)
    requires
        encode::enc_bytes(a, t) == encode::enc_bytes(b, u),
        encode::fits(a),
        encode::fits(b),
    ensures
        a == b,
        t == u,
{
    u32_is_unique(a.len() as u32, a + t, b.len() as u32, b + u);
    let whole = a + t;
    assert(a =~= whole.subrange(0, a.len() as int));
    assert(b =~= whole.subrange(0, a.len() as int));
    assert(t =~= whole.subrange(a.len() as int, whole.len() as int));
    assert(u =~= whole.subrange(a.len() as int, whole.len() as int));
}

proof fn name_is_unique(a: Seq<char>, t: Seq<u8>, b: Seq<char>, u: Seq<u8>)
    requires
        encode::enc_name(a, t) == encode::enc_name(b, u),
        encode::name_fits(a),
        encode::name_fits(b),
    ensures
        a == b,
        t == u,
{
    bytes_are_unique(encode_utf8(a), t, encode_utf8(b), u);
    ordered::names_by_bytes(a, b);
}

/// Each of the simple layouts can be read in one way only.
proof fn simple_layouts_are_unique()
    ensures
        forall|a: u8, t: Seq<u8>, b: u8, u: Seq<u8>| #[trigger]
            encode::enc_u8(a, t) == #[trigger] encode::enc_u8(b, u) ==> a == b && t == u,
        forall|a: u32, t: Seq<u8>, b: u32, u: Seq<u8>| #[trigger]
            encode::enc_u32(a, t) == #[trigger] encode::enc_u32(b, u) ==> a == b && t == u,
        forall|a: u64, t: Seq<u8>, b: u64, u: Seq<u8>| #[trigger]
            encode::enc_u64(a, t) == #[trigger] encode::enc_u64(b, u) ==> a == b && t == u,
        forall|a: Seq<u8>, t: Seq<u8>, b: Seq<u8>, u: Seq<u8>| #[trigger]
            encode::enc_bytes(a, t) == #[trigger] encode::enc_bytes(b, u) && encode::fits(a)
                && encode::fits(b) ==> a == b && t == u,
        forall|a: Seq<char>, t: Seq<u8>, b: Seq<char>, u: Seq<u8>| #[trigger]
            encode::enc_name(a, t) == #[trigger] encode::enc_name(b, u) && encode::name_fits(a)
                && encode::name_fits(b) ==> a == b && t == u,
{
    assert forall|a: u8, t: Seq<u8>, b: u8, u: Seq<u8>| #[trigger]
        encode::enc_u8(a, t) == #[trigger] encode::enc_u8(b, u) implies a == b && t == u by {
        u8_is_unique(a, t, b, u);
    }
    assert forall|a: u32, t: Seq<u8>, b: u32, u: Seq<u8>| #[trigger]
        encode::enc_u32(a, t) == #[trigger] encode::enc_u32(b, u) implies a == b && t == u by {
        u32_is_unique(a, t, b, u);
    }
    assert forall|a: u64, t: Seq<u8>, b: u64, u: Seq<u8>| #[trigger]
        encode::enc_u64(a, t) == #[trigger] encode::enc_u64(b, u) implies a == b && t == u by {
        u64_is_unique(a, t, b, u);
    }
    assert forall|a: Seq<u8>, t: Seq<u8>, b: Seq<u8>, u: Seq<u8>| #[trigger]
        encode::enc_bytes(a, t) == #[trigger] encode::enc_bytes(b, u) && encode::fits(a)
            && encode::fits(b) implies a == b && t == u by {
        bytes_are_unique(a, t, b, u);
    }
    assert forall|a: Seq<char>, t: Seq<u8>, b: Seq<char>, u: Seq<u8>| #[trigger]
        encode::enc_name(a, t) == #[trigger] encode::enc_name(b, u) && encode::name_fits(a)
            && encode::name_fits(b) implies a == b && t == u by {
        name_is_unique(a, t, b, u);
    }
}

/// Whether items that satisfy `ok` can be read in one way only.
pub open spec fn unique<T>(
    enc: spec_fn(T, Seq<u8>) -> Seq<u8>,
    ok: spec_fn(T) -> bool,
) -> bool {
    forall|a: T, t: Seq<u8>, b: T, u: Seq<u8>|
        #![trigger enc(a, t), enc(b, u)]
        ok(a) && ok(b) && enc(a, t) == enc(b, u) ==> a == b && t == u
}

/// Whether all items satisfy `ok`.
pub open spec fn all_ok<T>(items: Seq<T>, ok: spec_fn(T) -> bool) -> bool {
    forall|i: int| 0 <= i < items.len() ==> ok(#[trigger] items[i])
}

/// A list that starts like another one is its beginning.
proof fn items_prefix<T>(
    a: Seq<T>,
    b: Seq<T>,
    enc: spec_fn(T, Seq<u8>) -> Seq<u8>,
    ok: spec_fn(T) -> bool,
    t: Seq<u8>,
    u: Seq<u8>,
)
    requires
        unique(enc, ok),
        all_ok(a, ok),
        all_ok(b, ok),
        a.len() <= b.len(),
        encode::enc_items(a, enc, t) == encode::enc_items(b, enc, u),
    ensures
        a == b.take(a.len() as int),
        t == encode::enc_items(b.skip(a.len() as int), enc, u),
    decreases a.len(),
{
    if a.len() == 0 {
        assert(b.take(0) =~= a);
        assert(b.skip(0) =~= b);
    } else {
        let rest_a = a.drop_first();
        let rest_b = b.drop_first();
        assert(ok(a[0]) && ok(b[0]));
        assert(enc(a[0], encode::enc_items(rest_a, enc, t)) == enc(
            b[0],
            encode::enc_items(rest_b, enc, u),
        ));
        assert forall|i: int| 0 <= i < rest_a.len() implies ok(#[trigger] rest_a[i]) by {
            assert(rest_a[i] == a[i + 1]);
        }
        assert forall|i: int| 0 <= i < rest_b.len() implies ok(#[trigger] rest_b[i]) by {
            assert(rest_b[i] == b[i + 1]);
        }
        items_prefix(rest_a, rest_b, enc, ok, t, u);
        assert(b.skip(a.len() as int) =~= rest_b.skip(rest_a.len() as int));
        assert forall|i: int| 0 <= i < a.len() implies a[i] == b[i] by {
            if i > 0 {
                assert(rest_a[i - 1] == rest_b.take(rest_a.len() as int)[i - 1]);
            }
        }
        assert(a =~= b.take(a.len() as int));
    }
}

/// The item after the beginning of a list is the next item of the list.
proof fn next_item<T>(
    whole: Seq<u8>,
    done: Seq<T>,
    rest: Seq<u8>,
    all: Seq<T>,
    enc: spec_fn(T, Seq<u8>) -> Seq<u8>,
    ok: spec_fn(T) -> bool,
    tail: Seq<u8>,
)
    requires
        unique(enc, ok),
        all_ok(done, ok),
        all_ok(all, ok),
        done.len() < all.len(),
        whole == encode::enc_items(done, enc, rest),
        whole == encode::enc_items(all, enc, tail),
    ensures
        done == all.take(done.len() as int),
        rest == enc(
            all[done.len() as int],
            encode::enc_items(all.skip(done.len() as int + 1), enc, tail),
        ),
{
    items_prefix(done, all, enc, ok, rest, tail);
    let left = all.skip(done.len() as int);
    assert(left[0] == all[done.len() as int]);
    assert(left.drop_first() =~= all.skip(done.len() as int + 1));
}

/// Lists of the same length that are written alike are alike.
proof fn items_are_unique<T>(
    a: Seq<T>,
    b: Seq<T>,
    enc: spec_fn(T, Seq<u8>) -> Seq<u8>,
    ok: spec_fn(T) -> bool,
    t: Seq<u8>,
    u: Seq<u8>,
)
    requires
        unique(enc, ok),
        all_ok(a, ok),
        all_ok(b, ok),
        a.len() == b.len(),
        encode::enc_items(a, enc, t) == encode::enc_items(b, enc, u),
    ensures
        a == b,
        t == u,
{
    items_prefix(a, b, enc, ok, t, u);
    assert(b.take(a.len() as int) =~= b);
    assert(b.skip(a.len() as int) =~= Seq::<T>::empty());
}

/// A list takes at least the fewest bytes of an item for each of its items.
proof fn items_take_bytes<T>(
    items: Seq<T>,
    enc: spec_fn(T, Seq<u8>) -> Seq<u8>,
    least: nat,
    tail: Seq<u8>,
)
    requires
        forall|item: T, t: Seq<u8>| (#[trigger] enc(item, t)).len() >= t.len() + least,
    ensures
        encode::enc_items(items, enc, tail).len() >= tail.len() + least * items.len(),
    decreases items.len(),
{
    if items.len() > 0 {
        let rest = items.drop_first();
        items_take_bytes(rest, enc, least, tail);
        assert(enc(items[0], encode::enc_items(rest, enc, tail)).len() >= encode::enc_items(
            rest,
            enc,
            tail,
        ).len() + least);
        assert(least * items.len() == least * rest.len() + least) by (nonlinear_arith)
            requires
                items.len() == rest.len() + 1,
        ;
    }
}

proof fn simple_lengths()
    ensures
        forall|a: u8, t: Seq<u8>| (#[trigger] encode::enc_u8(a, t)).len() == t.len() + 1,
        forall|a: u32, t: Seq<u8>| (#[trigger] encode::enc_u32(a, t)).len() == t.len() + 4,
        forall|a: u64, t: Seq<u8>| (#[trigger] encode::enc_u64(a, t)).len() == t.len() + 8,
        forall|a: Seq<u8>, t: Seq<u8>|
            (#[trigger] encode::enc_bytes(a, t)).len() == t.len() + 4 + a.len(),
{
    bytes::lemma_auto_spec_u32_to_from_le_bytes();
    bytes::lemma_auto_spec_u64_to_from_le_bytes();
}

/// Every identifier can be written.
pub open spec fn any_id() -> spec_fn(u64) -> bool {
    |id: u64| true
}

/// The blob references that can be written.
pub open spec fn fitting_reference() -> spec_fn(BlobReference) -> bool {
    |value: BlobReference| encode::reference_fits(value)
}

/// The tables that can be written.
pub open spec fn fitting_table() -> spec_fn(TableSummary) -> bool {
    |value: TableSummary| encode::table_fits(value)
}

/// The buckets with tables that can be written.
pub open spec fn fitting_table_bucket() -> spec_fn((Seq<char>, Seq<TableSummary>)) -> bool {
    |value: (Seq<char>, Seq<TableSummary>)| encode::table_bucket_fits(value)
}

/// The buckets that can be written.
pub open spec fn fitting_bucket() -> spec_fn(BucketRow) -> bool {
    |value: BucketRow| encode::bucket_fits(value)
}

/// Every pending deletion can be written.
pub open spec fn any_pending() -> spec_fn((u64, Sequence)) -> bool {
    |value: (u64, Sequence)| true
}

/// The checkpoints that can be written.
pub open spec fn fitting_checkpoint() -> spec_fn((Seq<char>, Sequence)) -> bool {
    |value: (Seq<char>, Sequence)| encode::name_fits(value.0)
}

proof fn ids_are_unique()
    ensures
        unique(encode::id_layout(), any_id()),
{
    simple_layouts_are_unique();
}

proof fn key_is_unique(a: RecordKey, t: Seq<u8>, b: RecordKey, u: Seq<u8>)
    requires
        encode::fits(a.user_key),
        encode::fits(b.user_key),
        encode::enc_key(a, t) == encode::enc_key(b, u),
    ensures
        a == b,
        t == u,
{
    simple_layouts_are_unique();
}

proof fn reference_is_unique(a: BlobReference, t: Seq<u8>, b: BlobReference, u: Seq<u8>)
    requires
        encode::reference_fits(a),
        encode::reference_fits(b),
        encode::enc_reference(a, t) == encode::enc_reference(b, u),
    ensures
        a == b,
        t == u,
{
    simple_layouts_are_unique();
    let more_a = encode::enc_key(a.largest_internal_key, t);
    let more_b = encode::enc_key(b.largest_internal_key, u);
    key_is_unique(a.smallest_internal_key, more_a, b.smallest_internal_key, more_b);
    key_is_unique(a.largest_internal_key, t, b.largest_internal_key, u);
}

proof fn references_are_unique()
    ensures
        unique(encode::reference_layout(), fitting_reference()),
{
    let enc = encode::reference_layout();
    let ok = fitting_reference();
    assert forall|a: BlobReference, t: Seq<u8>, b: BlobReference, u: Seq<u8>|
        #![trigger enc(a, t), enc(b, u)]
        ok(a) && ok(b) && enc(a, t) == enc(b, u) implies a == b && t == u by {
        reference_is_unique(a, t, b, u);
    }
}

proof fn table_is_unique(a: TableSummary, t: Seq<u8>, b: TableSummary, u: Seq<u8>)
    requires
        encode::table_fits(a),
        encode::table_fits(b),
        encode::enc_table(a, t) == encode::enc_table(b, u),
    ensures
        a == b,
        t == u,
{
    simple_layouts_are_unique();
    ids_are_unique();
    references_are_unique();
    assert(encode::enc_table_blobs(a, t) == encode::enc_table_blobs(b, u));
    let refs_a = encode::enc_u32(
        a.blob_references.len() as u32,
        encode::enc_items(a.blob_references, encode::reference_layout(), t),
    );
    let refs_b = encode::enc_u32(
        b.blob_references.len() as u32,
        encode::enc_items(b.blob_references, encode::reference_layout(), u),
    );
    assert(a.blob_file_ids.len() as u32 == b.blob_file_ids.len() as u32);
    items_are_unique(
        a.blob_file_ids,
        b.blob_file_ids,
        encode::id_layout(),
        any_id(),
        refs_a,
        refs_b,
    );
    assert(a.blob_references.len() as u32 == b.blob_references.len() as u32);
    items_are_unique(
        a.blob_references,
        b.blob_references,
        encode::reference_layout(),
        fitting_reference(),
        t,
        u,
    );
}

proof fn tables_are_unique()
    ensures
        unique(encode::table_layout(), fitting_table()),
{
    let enc = encode::table_layout();
    let ok = fitting_table();
    assert forall|a: TableSummary, t: Seq<u8>, b: TableSummary, u: Seq<u8>|
        #![trigger enc(a, t), enc(b, u)]
        ok(a) && ok(b) && enc(a, t) == enc(b, u) implies a == b && t == u by {
        table_is_unique(a, t, b, u);
    }
}

proof fn table_bucket_is_unique(
    a: (Seq<char>, Seq<TableSummary>),
    t: Seq<u8>,
    b: (Seq<char>, Seq<TableSummary>),
    u: Seq<u8>,
)
    requires
        encode::table_bucket_fits(a),
        encode::table_bucket_fits(b),
        encode::enc_table_bucket(a, t) == encode::enc_table_bucket(b, u),
    ensures
        a == b,
        t == u,
{
    simple_layouts_are_unique();
    tables_are_unique();
    assert(a.1.len() as u32 == b.1.len() as u32);
    items_are_unique(a.1, b.1, encode::table_layout(), fitting_table(), t, u);
}

proof fn table_buckets_are_unique()
    ensures
        unique(encode::table_bucket_layout(), fitting_table_bucket()),
{
    let enc = encode::table_bucket_layout();
    let ok = fitting_table_bucket();
    assert forall|
        a: (Seq<char>, Seq<TableSummary>),
        t: Seq<u8>,
        b: (Seq<char>, Seq<TableSummary>),
        u: Seq<u8>,
    |
        #![trigger enc(a, t), enc(b, u)]
        ok(a) && ok(b) && enc(a, t) == enc(b, u) implies a == b && t == u by {
        table_bucket_is_unique(a, t, b, u);
    }
}

proof fn prefix_is_unique(a: PrefixRule, t: Seq<u8>, b: PrefixRule, u: Seq<u8>)
    requires
        encode::prefix_fits(a),
        encode::prefix_fits(b),
        encode::enc_prefix(a, t) == encode::enc_prefix(b, u),
    ensures
        a == b,
        t == u,
{
    simple_layouts_are_unique();
}

proof fn policies_are_unique(a: BucketSettings, t: Seq<u8>, b: BucketSettings, u: Seq<u8>)
    ensures
        encode::enc_filter(a.filter_policy, t) == encode::enc_filter(b.filter_policy, u)
            ==> a.filter_policy == b.filter_policy && t == u,
        encode::enc_prefix_filter(a.prefix_filter_policy, t) == encode::enc_prefix_filter(
            b.prefix_filter_policy,
            u,
        ) ==> a.prefix_filter_policy == b.prefix_filter_policy && t == u,
        encode::enc_index_search(a.index_search_policy, t) == encode::enc_index_search(
            b.index_search_policy,
            u,
        ) ==> a.index_search_policy == b.index_search_policy && t == u,
        encode::enc_blob_merge(a.blob_level_merge_policy, t) == encode::enc_blob_merge(
            b.blob_level_merge_policy,
            u,
        ) ==> a.blob_level_merge_policy == b.blob_level_merge_policy && t == u,
        encode::enc_curve(a.filter_depth_curve, t) == encode::enc_curve(b.filter_depth_curve, u)
            ==> a.filter_depth_curve == b.filter_depth_curve && t == u,
        encode::enc_compression(a.compression, t) == encode::enc_compression(b.compression, u)
            ==> a.compression == b.compression && t == u,
        encode::enc_bool(a.allow_empty_keys, t) == encode::enc_bool(b.allow_empty_keys, u)
            ==> a.allow_empty_keys == b.allow_empty_keys && t == u,
{
    simple_layouts_are_unique();
}

proof fn options_are_unique(a: BucketSettings, t: Seq<u8>, b: BucketSettings, u: Seq<u8>)
    requires
        encode::prefix_fits(a.prefix_extractor),
        encode::prefix_fits(b.prefix_extractor),
        encode::enc_options(a, t) == encode::enc_options(b, u),
    ensures
        a == b,
        t == u,
{
    let curve_a = encode::enc_curve(a.filter_depth_curve, t);
    let curve_b = encode::enc_curve(b.filter_depth_curve, u);
    let merge_a = encode::enc_blob_merge(a.blob_level_merge_policy, curve_a);
    let merge_b = encode::enc_blob_merge(b.blob_level_merge_policy, curve_b);
    let limit_a = encode::enc_usize(a.blob_threshold_bytes, merge_a);
    let limit_b = encode::enc_usize(b.blob_threshold_bytes, merge_b);
    let index_a = encode::enc_index_search(a.index_search_policy, limit_a);
    let index_b = encode::enc_index_search(b.index_search_policy, limit_b);
    let pfilter_a = encode::enc_prefix_filter(a.prefix_filter_policy, index_a);
    let pfilter_b = encode::enc_prefix_filter(b.prefix_filter_policy, index_b);
    let prefix_a = encode::enc_prefix(a.prefix_extractor, pfilter_a);
    let prefix_b = encode::enc_prefix(b.prefix_extractor, pfilter_b);
    let filter_a = encode::enc_filter(a.filter_policy, prefix_a);
    let filter_b = encode::enc_filter(b.filter_policy, prefix_b);
    let block_a = encode::enc_usize(a.block_bytes, filter_a);
    let block_b = encode::enc_usize(b.block_bytes, filter_b);
    let comp_a = encode::enc_compression(a.compression, block_a);
    let comp_b = encode::enc_compression(b.compression, block_b);
    policies_are_unique(a, comp_a, b, comp_b);
    policies_are_unique(a, block_a, b, block_b);
    u64_is_unique(a.block_bytes as u64, filter_a, b.block_bytes as u64, filter_b);
    policies_are_unique(a, prefix_a, b, prefix_b);
    prefix_is_unique(a.prefix_extractor, pfilter_a, b.prefix_extractor, pfilter_b);
    policies_are_unique(a, index_a, b, index_b);
    policies_are_unique(a, limit_a, b, limit_b);
    u64_is_unique(a.blob_threshold_bytes as u64, merge_a, b.blob_threshold_bytes as u64, merge_b);
    policies_are_unique(a, curve_a, b, curve_b);
    policies_are_unique(a, t, b, u);
}

proof fn bucket_is_unique(a: BucketRow, t: Seq<u8>, b: BucketRow, u: Seq<u8>)
    requires
        encode::bucket_fits(a),
        encode::bucket_fits(b),
        encode::enc_bucket(a, t) == encode::enc_bucket(b, u),
    ensures
        a == b,
        t == u,
{
    let generation_a = encode::enc_u64(a.generation, t);
    let generation_b = encode::enc_u64(b.generation, u);
    let options_a = encode::enc_options(a.options, generation_a);
    let options_b = encode::enc_options(b.options, generation_b);
    name_is_unique(a.name, options_a, b.name, options_b);
    options_are_unique(a.options, generation_a, b.options, generation_b);
    u64_is_unique(a.generation, t, b.generation, u);
}

proof fn buckets_are_unique()
    ensures
        unique(encode::bucket_layout(), fitting_bucket()),
{
    let enc = encode::bucket_layout();
    let ok = fitting_bucket();
    assert forall|a: BucketRow, t: Seq<u8>, b: BucketRow, u: Seq<u8>|
        #![trigger enc(a, t), enc(b, u)]
        ok(a) && ok(b) && enc(a, t) == enc(b, u) implies a == b && t == u by {
        bucket_is_unique(a, t, b, u);
    }
}

proof fn pending_are_unique()
    ensures
        unique(encode::pending_layout(), any_pending()),
{
    simple_layouts_are_unique();
}

proof fn checkpoints_are_unique()
    ensures
        unique(encode::checkpoint_layout(), fitting_checkpoint()),
{
    let enc = encode::checkpoint_layout();
    let ok = fitting_checkpoint();
    assert forall|a: (Seq<char>, Sequence), t: Seq<u8>, b: (Seq<char>, Sequence), u: Seq<u8>|
        #![trigger enc(a, t), enc(b, u)]
        ok(a) && ok(b) && enc(a, t) == enc(b, u) implies a == b && t == u by {
        let sequence_a = encode::enc_u64(a.1.0, t);
        let sequence_b = encode::enc_u64(b.1.0, u);
        name_is_unique(a.0, sequence_a, b.0, sequence_b);
        u64_is_unique(a.1.0, t, b.1.0, u);
    }
}

/// Whether the fields of a manifest fit, and its generations belong to its buckets.
pub open spec fn has_layout(manifest: Manifest) -> bool {
    encode::manifest_fits(manifest) && state::names_of(manifest.bucket_generations)
        == state::names_of(manifest.buckets)
}

/// Two manifests with the same payload are the same: the layout loses nothing.
pub proof fn payload_determines_manifest(a: Manifest, b: Manifest)
    requires
        has_layout(a),
        has_layout(b),
        encode::payload_of(a) == encode::payload_of(b),
    ensures
        a == b,
{
    simple_layouts_are_unique();
    buckets_are_unique();
    table_buckets_are_unique();
    pending_are_unique();
    checkpoints_are_unique();
    let rows_a = encode::bucket_rows(a);
    let rows_b = encode::bucket_rows(b);
    assert(rows_a.len() as u32 == rows_b.len() as u32);
    items_are_unique(
        rows_a,
        rows_b,
        encode::bucket_layout(),
        fitting_bucket(),
        encode::payload_tables(a),
        encode::payload_tables(b),
    );
    assert(a.tables.len() as u32 == b.tables.len() as u32);
    items_are_unique(
        a.tables,
        b.tables,
        encode::table_bucket_layout(),
        fitting_table_bucket(),
        encode::payload_pending(a),
        encode::payload_pending(b),
    );
    assert(a.pending_blob_deletions.len() as u32 == b.pending_blob_deletions.len() as u32);
    items_are_unique(
        a.pending_blob_deletions,
        b.pending_blob_deletions,
        encode::pending_layout(),
        any_pending(),
        encode::payload_checkpoints(a),
        encode::payload_checkpoints(b),
    );
    assert(a.checkpoints.len() as u32 == b.checkpoints.len() as u32);
    items_are_unique(
        a.checkpoints,
        b.checkpoints,
        encode::checkpoint_layout(),
        fitting_checkpoint(),
        encode::payload_counters(a),
        encode::payload_counters(b),
    );
    rows_determine_buckets(a, b);
}

proof fn rows_determine_buckets(a: Manifest, b: Manifest)
    requires
        state::names_of(a.bucket_generations) == state::names_of(a.buckets),
        state::names_of(b.bucket_generations) == state::names_of(b.buckets),
        encode::bucket_rows(a) == encode::bucket_rows(b),
    ensures
        a.buckets == b.buckets,
        a.bucket_generations == b.bucket_generations,
{
    let rows = encode::bucket_rows(a);
    assert(rows.len() == a.buckets.len());
    assert(encode::bucket_rows(b).len() == b.buckets.len());
    assert(state::names_of(a.bucket_generations).len() == a.bucket_generations.len());
    assert(state::names_of(b.bucket_generations).len() == b.bucket_generations.len());
    assert(state::names_of(a.buckets).len() == a.buckets.len());
    assert(state::names_of(b.buckets).len() == b.buckets.len());
    assert forall|i: int| 0 <= i < a.buckets.len() implies a.buckets[i] == b.buckets[i]
        && a.bucket_generations[i] == b.bucket_generations[i] by {
        assert(rows[i] == encode::bucket_rows(b)[i]);
        assert(state::names_of(a.bucket_generations)[i] == state::names_of(a.buckets)[i]);
        assert(state::names_of(b.bucket_generations)[i] == state::names_of(b.buckets)[i]);
    }
    assert(a.buckets =~= b.buckets);
    assert(a.bucket_generations =~= b.bucket_generations);
}

/// The text of a layout error.
pub open spec fn invalid_text(message: Seq<char>) -> Seq<char> {
    "invalid manifest: "@ + message
}

/// Builds a layout error.
pub fn invalid_manifest(message: &str) -> (error: Error)
    ensures
        error.says(ErrorKind::InvalidFormat, invalid_text(message@)),
{
    Error::InvalidFormat { message: text::join("invalid manifest: ", message) }
}

fn unknown_tag(message: &str, tag: u8) -> (error: Error)
    ensures
        error.says(
            ErrorKind::InvalidFormat,
            message@ + text::decimal(tag as nat),
        ),
{
    Error::InvalidFormat { message: numbered(message, tag) }
}

fn numbered(message: &str, tag: u8) -> (text: String)
    ensures
        text@ == message@ + text::decimal(tag as nat),
{
    let mut text: String = message.to_owned();
    text::push_decimal(&mut text, tag as u64);
    text
}

/// A position in a payload.
#[derive(Debug)]
pub struct Cursor<'payload> {
    payload: &'payload [u8],
    offset: usize,
}

impl<'payload> Cursor<'payload> {
    /// Whether the position lies inside the payload.
    pub closed spec fn wf(&self) -> bool {
        self.offset <= self.payload@.len()
    }

    /// The length of the payload.
    pub closed spec fn total(&self) -> nat {
        self.payload@.len()
    }

    /// The bytes that are still to be read.
    pub closed spec fn rest(&self) -> Seq<u8> {
        self.payload@.skip(self.offset as int)
    }

    /// Starts at the first byte.
    pub fn new(payload: &'payload [u8]) -> (cursor: Cursor<'payload>)
        ensures
            cursor.wf(),
            cursor.rest() == payload@,
            cursor.total() == payload@.len(),
    {
        let cursor = Cursor { payload, offset: 0 };
        proof {
            assert(cursor.rest() =~= payload@);
        }
        cursor
    }

    /// Tells whether every byte was read.
    pub fn is_finished(&self) -> (finished: bool)
        requires
            self.wf(),
        ensures
            finished == (self.rest().len() == 0),
    {
        self.offset == self.payload.len()
    }

    /// Returns the number of bytes that are still to be read.
    pub fn remaining_len(&self) -> (len: usize)
        requires
            self.wf(),
        ensures
            len == self.rest().len(),
    {
        self.payload.len() - self.offset
    }

    fn take(&mut self, len: usize) -> (bytes: &'payload [u8])
        requires
            old(self).wf(),
            len <= old(self).rest().len(),
        ensures
            final(self).wf(),
            final(self).total() == old(self).total(),
            bytes@.len() == len,
            old(self).rest() == bytes@ + final(self).rest(),
    {
        let ghost before = self.rest();
        assert(self.offset + len <= self.payload.len());
        let bytes: &'payload [u8] = slice_subrange(self.payload, self.offset, self.offset + len);
        self.offset = self.offset + len;
        proof {
            assert(before =~= bytes@ + self.rest());
        }
        bytes
    }

    /// Reads a byte.
    pub fn read_u8(&mut self) -> (result: Result<u8>)
        requires
            old(self).wf(),
        ensures
            final(self).total() == old(self).total(),
            match result {
                Ok(value) => faults::u8_in(old(self).rest()) == Parsed::Value(
                    value,
                    final(self).rest(),
                ),
                Err(error) => faults::u8_in(old(self).rest()).refused_with(error),
            },
            match result {
                Ok(value) => final(self).wf() && old(self).rest() == encode::enc_u8(
                    value,
                    final(self).rest(),
                ),
                Err(error) => {
                    &&& error.says(ErrorKind::InvalidFormat, invalid_text("short u8"@))
                    &&& old(self).rest().len() == 0
                    &&& forall|value: u8, tail: Seq<u8>|
                        old(self).rest() != #[trigger] encode::enc_u8(value, tail)
                },
            },
    {
        proof {
            reveal(faults::u8_in);
        }
        if self.offset == self.payload.len() {
            proof {
                simple_lengths();
                assert(self.rest().len() == 0);
            }
            return Err(invalid_manifest("short u8"));
        }
        let bytes: &[u8] = self.take(1);
        let value: u8 = bytes[0];
        proof {
            assert(bytes@ =~= seq![value]);
            assert(old(self).rest().skip(1) =~= self.rest());
        }
        Ok(value)
    }

    /// Reads a flag.
    pub fn read_bool(&mut self) -> (result: Result<bool>)
        requires
            old(self).wf(),
        ensures
            final(self).total() == old(self).total(),
            match result {
                Ok(_) => faults::bool_in(old(self).rest()).leaves(final(self).rest()),
                Err(error) => faults::bool_in(old(self).rest()).refused_with(error),
            },
            match result {
                Ok(value) => final(self).wf() && old(self).rest() == encode::enc_bool(
                    value,
                    final(self).rest(),
                ),
                Err(_) => {
                    forall|value: bool, tail: Seq<u8>|
                        old(self).rest() != #[trigger] encode::enc_bool(value, tail)
                },
            },
    {
        proof {
            reveal(faults::bool_in);
            simple_layouts_are_unique();
        }
        match self.read_u8() {
            Ok(0) => Ok(false),
            Ok(1) => Ok(true),
            Ok(value) => Err(unknown_tag("invalid manifest bool ", value)),
            Err(error) => Err(error),
        }
    }

    /// Reads a 32-bit number.
    pub fn read_u32(&mut self) -> (result: Result<u32>)
        requires
            old(self).wf(),
        ensures
            final(self).total() == old(self).total(),
            match result {
                Ok(value) => faults::u32_in(old(self).rest()) == Parsed::Value(
                    value,
                    final(self).rest(),
                ),
                Err(error) => faults::u32_in(old(self).rest()).refused_with(error),
            },
            match result {
                Ok(value) => final(self).wf() && old(self).rest() == encode::enc_u32(
                    value,
                    final(self).rest(),
                ),
                Err(error) => {
                    &&& error.says(ErrorKind::InvalidFormat, invalid_text("short u32"@))
                    &&& old(self).rest().len() < 4
                    &&& forall|value: u32, tail: Seq<u8>|
                        old(self).rest() != #[trigger] encode::enc_u32(value, tail)
                },
            },
    {
        proof {
            reveal(faults::u32_in);
            simple_lengths();
            bytes::lemma_auto_spec_u32_to_from_le_bytes();
        }
        if self.remaining_len() < 4 {
            return Err(invalid_manifest("short u32"));
        }
        let taken: &[u8] = self.take(4);
        proof {
            assert(old(self).rest().take(4) =~= taken@);
            assert(old(self).rest().skip(4) =~= self.rest());
        }
        Ok(bytes::u32_from_le_bytes(taken))
    }

    /// Reads a 64-bit number.
    pub fn read_u64(&mut self) -> (result: Result<u64>)
        requires
            old(self).wf(),
        ensures
            final(self).total() == old(self).total(),
            match result {
                Ok(value) => faults::u64_in(old(self).rest()) == Parsed::Value(
                    value,
                    final(self).rest(),
                ),
                Err(error) => faults::u64_in(old(self).rest()).refused_with(error),
            },
            match result {
                Ok(value) => final(self).wf() && old(self).rest() == encode::enc_u64(
                    value,
                    final(self).rest(),
                ),
                Err(error) => {
                    &&& error.says(ErrorKind::InvalidFormat, invalid_text("short u64"@))
                    &&& old(self).rest().len() < 8
                    &&& forall|value: u64, tail: Seq<u8>|
                        old(self).rest() != #[trigger] encode::enc_u64(value, tail)
                },
            },
    {
        proof {
            reveal(faults::u64_in);
            simple_lengths();
            bytes::lemma_auto_spec_u64_to_from_le_bytes();
        }
        if self.remaining_len() < 8 {
            return Err(invalid_manifest("short u64"));
        }
        let taken: &[u8] = self.take(8);
        proof {
            assert(old(self).rest().take(8) =~= taken@);
            assert(old(self).rest().skip(8) =~= self.rest());
        }
        Ok(bytes::u64_from_le_bytes(taken))
    }

    /// Reads a length or size.
    pub fn read_usize(&mut self) -> (result: Result<usize>)
        requires
            old(self).wf(),
        ensures
            final(self).total() == old(self).total(),
            match result {
                Ok(_) => faults::usize_in(old(self).rest()).leaves(final(self).rest()),
                Err(error) => faults::usize_in(old(self).rest()).refused_with(error),
            },
            match result {
                Ok(value) => final(self).wf() && old(self).rest() == encode::enc_usize(
                    value,
                    final(self).rest(),
                ),
                Err(_) => {
                    forall|value: usize, tail: Seq<u8>|
                        old(self).rest() != #[trigger] encode::enc_usize(value, tail)
                },
            },
    {
        proof {
            reveal(faults::usize_in);
            simple_layouts_are_unique();
        }
        match self.read_u64() {
            Ok(value) => {
                if value > usize::MAX as u64 {
                    return Err(
                        Error::unsupported_format(
                            "manifest usize field does not fit this platform",
                        ),
                    );
                }
                Ok(value as usize)
            },
            Err(error) => Err(error),
        }
    }

    /// Reads bytes behind their length.
    pub fn read_bytes(&mut self) -> (result: Result<Vec<u8>>)
        requires
            old(self).wf(),
        ensures
            final(self).total() == old(self).total(),
            match result {
                Ok(value) => faults::bytes_in(old(self).rest(), old(self).total()) == Parsed::Value(
                    value@,
                    final(self).rest(),
                ),
                Err(error) => faults::bytes_in(
                    old(self).rest(),
                    old(self).total(),
                ).refused_with(error),
            },
            match result {
                Ok(value) => {
                    &&& final(self).wf()
                    &&& encode::fits(value@)
                    &&& old(self).rest() == encode::enc_bytes(value@, final(self).rest())
                },
                Err(_) => {
                    forall|value: Seq<u8>, tail: Seq<u8>|
                        encode::fits(value) ==> old(self).rest() != #[trigger] encode::enc_bytes(
                            value,
                            tail,
                        )
                },
            },
    {
        proof {
            reveal(faults::bytes_in);
        }
        let ghost start = self.rest();
        let len: u32 = match self.read_u32() {
            Ok(len) => len,
            Err(error) => {
                return Err(error);
            },
        };
        let ghost middle = self.rest();
        match limits::checked_add_invalid_format(
            self.offset,
            len as usize,
            "manifest byte field length",
        ) {
            Ok(_) => {},
            Err(error) => {
                proof {
                    assert(self.payload@.len() == self.payload.len());
                    assert(middle.len() < len);
                    assert forall|value: Seq<u8>, tail: Seq<u8>| encode::fits(value) implies start
                        != #[trigger] encode::enc_bytes(value, tail) by {
                        if start == encode::enc_bytes(value, tail) {
                            u32_is_unique(len, middle, value.len() as u32, value + tail);
                            assert((value + tail).len() >= value.len());
                        }
                    }
                }
                return Err(error);
            },
        }
        if self.remaining_len() < len as usize {
            proof {
                assert forall|value: Seq<u8>, tail: Seq<u8>| encode::fits(value) implies start
                    != #[trigger] encode::enc_bytes(value, tail) by {
                    if start == encode::enc_bytes(value, tail) {
                        u32_is_unique(len, middle, value.len() as u32, value + tail);
                        assert((value + tail).len() >= value.len());
                    }
                }
            }
            return Err(invalid_manifest("short bytes"));
        }
        let taken: &[u8] = self.take(len as usize);
        proof {
            assert(middle.take(len as int) =~= taken@);
            assert(middle.skip(len as int) =~= self.rest());
        }
        Ok(slice_to_vec(taken))
    }

    /// Reads a name; `message` is the error for bytes that are not text.
    fn read_name(&mut self, message: &str) -> (result: Result<String>)
        requires
            old(self).wf(),
        ensures
            final(self).total() == old(self).total(),
            match result {
                Ok(value) => faults::name_in(
                    old(self).rest(),
                    old(self).total(),
                    message@,
                ) == Parsed::Value(
                    value@,
                    final(self).rest(),
                ),
                Err(error) => faults::name_in(
                    old(self).rest(),
                    old(self).total(),
                    message@,
                ).refused_with(error),
            },
            match result {
                Ok(value) => {
                    &&& final(self).wf()
                    &&& encode::name_fits(value@)
                    &&& old(self).rest() == encode::enc_name(value@, final(self).rest())
                },
                Err(_) => {
                    forall|value: Seq<char>, tail: Seq<u8>|
                        encode::name_fits(value) ==> old(self).rest()
                            != #[trigger] encode::enc_name(value, tail)
                },
            },
    {
        proof {
            reveal(faults::name_in);
        }
        let ghost start = self.rest();
        let taken: Vec<u8> = match self.read_bytes() {
            Ok(taken) => taken,
            Err(error) => {
                return Err(error);
            },
        };
        let ghost encoded = taken@;
        match text::text_from_utf8(taken) {
            Some(name) => {
                proof {
                    decode_utf8_encode_utf8(encoded);
                }
                Ok(name)
            },
            None => {
                proof {
                    let after = self.rest();
                    assert forall|value: Seq<char>, tail: Seq<u8>| encode::name_fits(
                        value,
                    ) implies start != #[trigger] encode::enc_name(value, tail) by {
                        if start == encode::enc_name(value, tail) {
                            bytes_are_unique(encoded, after, encode_utf8(value), tail);
                            encode_utf8_valid_utf8(value);
                        }
                    }
                }
                Err(Error::invalid_format(message))
            },
        }
    }

    fn read_compression_profile(&mut self) -> (result: Result<CompressionProfile>)
        requires
            old(self).wf(),
        ensures
            final(self).total() == old(self).total(),
            match result {
                Ok(_) => faults::compression_in(old(self).rest()).leaves(final(self).rest()),
                Err(error) => faults::compression_in(old(self).rest()).refused_with(error),
            },
            match result {
                Ok(value) => final(self).wf() && old(self).rest() == encode::enc_compression(
                    value,
                    final(self).rest(),
                ),
                Err(_) => {
                    forall|value: CompressionProfile, tail: Seq<u8>|
                        old(self).rest() != #[trigger] encode::enc_compression(value, tail)
                },
            },
    {
        proof {
            reveal(faults::compression_in);
            simple_layouts_are_unique();
        }
        match self.read_u8() {
            Ok(0) => Ok(CompressionProfile::Uncompressed),
            Ok(1) => Ok(CompressionProfile::Fast),
            Ok(tag) => Err(unknown_tag("unknown manifest compression profile ", tag)),
            Err(error) => Err(error),
        }
    }

    fn read_filter_policy(&mut self) -> (result: Result<FilterPolicy>)
        requires
            old(self).wf(),
        ensures
            final(self).total() == old(self).total(),
            match result {
                Ok(_) => faults::filter_in(old(self).rest()).leaves(final(self).rest()),
                Err(error) => faults::filter_in(old(self).rest()).refused_with(error),
            },
            match result {
                Ok(value) => final(self).wf() && old(self).rest() == encode::enc_filter(
                    value,
                    final(self).rest(),
                ),
                Err(_) => {
                    forall|value: FilterPolicy, tail: Seq<u8>|
                        old(self).rest() != #[trigger] encode::enc_filter(value, tail)
                },
            },
    {
        proof {
            reveal(faults::filter_in);
            simple_layouts_are_unique();
        }
        match self.read_u8() {
            Ok(0) => Ok(FilterPolicy::Disabled),
            Ok(1) => match self.read_u8() {
                Ok(bits_per_key) => Ok(FilterPolicy::Bloom { bits_per_key }),
                Err(error) => Err(error),
            },
            Ok(tag) => Err(unknown_tag("unknown manifest filter policy ", tag)),
            Err(error) => Err(error),
        }
    }

    fn read_prefix_extractor(&mut self) -> (result: Result<PrefixExtractor>)
        requires
            old(self).wf(),
        ensures
            final(self).total() == old(self).total(),
            match result {
                Ok(_) => faults::prefix_in(
                    old(self).rest(),
                    old(self).total(),
                ).leaves(final(self).rest()),
                Err(error) => faults::prefix_in(
                    old(self).rest(),
                    old(self).total(),
                ).refused_with(error),
            },
            match result {
                Ok(value) => {
                    &&& final(self).wf()
                    &&& encode::prefix_fits(value@)
                    &&& old(self).rest() == encode::enc_prefix(value@, final(self).rest())
                },
                Err(_) => {
                    forall|value: PrefixRule, tail: Seq<u8>|
                        encode::prefix_fits(value) ==> old(self).rest()
                            != #[trigger] encode::enc_prefix(value, tail)
                },
            },
    {
        proof {
            reveal(faults::prefix_in);
            simple_layouts_are_unique();
        }
        match self.read_u8() {
            Ok(0) => match self.read_usize() {
                Ok(len) => Ok(PrefixExtractor::FixedLen(len)),
                Err(error) => Err(error),
            },
            Ok(1) => match self.read_u8() {
                Ok(separator) => Ok(PrefixExtractor::Separator(separator)),
                Err(error) => Err(error),
            },
            Ok(2) => match self.read_name("manifest custom prefix extractor is not UTF-8") {
                Ok(name) => Ok(PrefixExtractor::Custom(name)),
                Err(error) => Err(error),
            },
            Ok(3) => Ok(PrefixExtractor::Disabled),
            Ok(tag) => Err(unknown_tag("unknown manifest prefix extractor ", tag)),
            Err(error) => Err(error),
        }
    }

    fn read_prefix_filter_policy(&mut self) -> (result: Result<PrefixFilterPolicy>)
        requires
            old(self).wf(),
        ensures
            final(self).total() == old(self).total(),
            match result {
                Ok(_) => faults::prefix_filter_in(old(self).rest()).leaves(final(self).rest()),
                Err(error) => faults::prefix_filter_in(old(self).rest()).refused_with(error),
            },
            match result {
                Ok(value) => final(self).wf() && old(self).rest() == encode::enc_prefix_filter(
                    value,
                    final(self).rest(),
                ),
                Err(_) => {
                    forall|value: PrefixFilterPolicy, tail: Seq<u8>|
                        old(self).rest() != #[trigger] encode::enc_prefix_filter(value, tail)
                },
            },
    {
        proof {
            reveal(faults::prefix_filter_in);
            simple_layouts_are_unique();
        }
        match self.read_u8() {
            Ok(0) => Ok(PrefixFilterPolicy::Disabled),
            Ok(1) => match self.read_u8() {
                Ok(bits_per_prefix) => Ok(PrefixFilterPolicy::Bloom { bits_per_prefix }),
                Err(error) => Err(error),
            },
            Ok(tag) => Err(unknown_tag("unknown manifest prefix filter policy ", tag)),
            Err(error) => Err(error),
        }
    }

    fn read_index_search_policy(&mut self) -> (result: Result<IndexSearchPolicy>)
        requires
            old(self).wf(),
        ensures
            final(self).total() == old(self).total(),
            match result {
                Ok(_) => faults::index_search_in(old(self).rest()).leaves(final(self).rest()),
                Err(error) => faults::index_search_in(old(self).rest()).refused_with(error),
            },
            match result {
                Ok(value) => final(self).wf() && old(self).rest() == encode::enc_index_search(
                    value,
                    final(self).rest(),
                ),
                Err(_) => {
                    forall|value: IndexSearchPolicy, tail: Seq<u8>|
                        old(self).rest() != #[trigger] encode::enc_index_search(value, tail)
                },
            },
    {
        proof {
            reveal(faults::index_search_in);
            simple_layouts_are_unique();
        }
        match self.read_u8() {
            Ok(0) => Ok(IndexSearchPolicy::Linear),
            Ok(1) => Ok(IndexSearchPolicy::Binary),
            Ok(4) => Ok(IndexSearchPolicy::Auto),
            Ok(tag) => Err(unknown_tag("unknown manifest index search policy ", tag)),
            Err(error) => Err(error),
        }
    }

    fn read_blob_level_merge_policy(&mut self) -> (result: Result<BlobLevelMergePolicy>)
        requires
            old(self).wf(),
        ensures
            final(self).total() == old(self).total(),
            match result {
                Ok(_) => faults::blob_merge_in(old(self).rest()).leaves(final(self).rest()),
                Err(error) => faults::blob_merge_in(old(self).rest()).refused_with(error),
            },
            match result {
                Ok(value) => final(self).wf() && old(self).rest() == encode::enc_blob_merge(
                    value,
                    final(self).rest(),
                ),
                Err(_) => {
                    forall|value: BlobLevelMergePolicy, tail: Seq<u8>|
                        old(self).rest() != #[trigger] encode::enc_blob_merge(value, tail)
                },
            },
    {
        proof {
            reveal(faults::blob_merge_in);
            simple_layouts_are_unique();
        }
        match self.read_u8() {
            Ok(0) => Ok(BlobLevelMergePolicy::Disabled),
            Ok(1) => Ok(BlobLevelMergePolicy::Auto),
            Ok(2) => Ok(BlobLevelMergePolicy::Always),
            Ok(tag) => Err(unknown_tag("unknown manifest blob level merge policy ", tag)),
            Err(error) => Err(error),
        }
    }

    fn read_filter_depth_curve(&mut self) -> (result: Result<FilterDepthCurve>)
        requires
            old(self).wf(),
        ensures
            final(self).total() == old(self).total(),
            match result {
                Ok(_) => faults::curve_in(old(self).rest()).leaves(final(self).rest()),
                Err(error) => faults::curve_in(old(self).rest()).refused_with(error),
            },
            match result {
                Ok(value) => final(self).wf() && old(self).rest() == encode::enc_curve(
                    value,
                    final(self).rest(),
                ),
                Err(_) => {
                    forall|value: FilterDepthCurve, tail: Seq<u8>|
                        old(self).rest() != #[trigger] encode::enc_curve(value, tail)
                },
            },
    {
        proof {
            reveal(faults::curve_in);
            simple_layouts_are_unique();
        }
        let tag: u8 = match self.read_u8() {
            Ok(tag) => tag,
            Err(error) => {
                return Err(error);
            },
        };
        if tag == 0 {
            return Ok(FilterDepthCurve::Auto);
        }
        if tag == 1 {
            return Ok(FilterDepthCurve::Uniform);
        }
        if tag > 3 {
            return Err(
                Error::Corruption {
                    message: numbered("unknown filter depth curve tag ", tag),
                },
            );
        }
        let step: u8 = match self.read_u8() {
            Ok(step) => step,
            Err(error) => {
                return Err(error);
            },
        };
        let bound: u8 = match self.read_u8() {
            Ok(bound) => bound,
            Err(error) => {
                return Err(error);
            },
        };
        if tag == 2 {
            Ok(FilterDepthCurve::Custom { step, floor: bound })
        } else {
            Ok(FilterDepthCurve::CostWeighted { step, ceil: bound })
        }
    }

    fn read_codec(&mut self) -> (result: Result<CodecId>)
        requires
            old(self).wf(),
        ensures
            final(self).total() == old(self).total(),
            match result {
                Ok(_) => faults::codec_in(old(self).rest()).leaves(final(self).rest()),
                Err(error) => faults::codec_in(old(self).rest()).refused_with(error),
            },
            match result {
                Ok(value) => final(self).wf() && old(self).rest() == encode::enc_codec(
                    value,
                    final(self).rest(),
                ),
                Err(_) => {
                    forall|value: CodecId, tail: Seq<u8>|
                        old(self).rest() != #[trigger] encode::enc_codec(value, tail)
                },
            },
    {
        proof {
            reveal(faults::codec_in);
            simple_layouts_are_unique();
        }
        match self.read_u8() {
            Ok(0) => Ok(CodecId::Uncompressed),
            Ok(1) => Ok(CodecId::FastLz4Block),
            Ok(tag) => Err(
                Error::UnsupportedFormat {
                    message: numbered("unknown manifest table codec ", tag),
                },
            ),
            Err(error) => Err(error),
        }
    }

    fn read_value_kind(&mut self) -> (result: Result<ValueKind>)
        requires
            old(self).wf(),
        ensures
            final(self).total() == old(self).total(),
            match result {
                Ok(value) => faults::kind_in(old(self).rest()) == Parsed::Value(
                    match value {
                        ValueKind::Put => 1u8,
                        ValueKind::PointDelete => 2u8,
                        ValueKind::RangeDelete => 3u8,
                    },
                    final(self).rest(),
                ),
                Err(error) => faults::kind_in(old(self).rest()).refused_with(error),
            },
            match result {
                Ok(value) => final(self).wf() && old(self).rest() == encode::enc_kind(
                    value,
                    final(self).rest(),
                ),
                Err(_) => {
                    forall|value: ValueKind, tail: Seq<u8>|
                        old(self).rest() != #[trigger] encode::enc_kind(value, tail)
                },
            },
    {
        proof {
            reveal(faults::kind_in);
            simple_layouts_are_unique();
        }
        match self.read_u8() {
            Ok(1) => Ok(ValueKind::Put),
            Ok(2) => Ok(ValueKind::PointDelete),
            Ok(3) => Ok(ValueKind::RangeDelete),
            Ok(tag) => Err(unknown_tag("unknown manifest internal value kind ", tag)),
            Err(error) => Err(error),
        }
    }

    fn read_internal_key(&mut self) -> (result: Result<InternalKey>)
        requires
            old(self).wf(),
        ensures
            final(self).total() == old(self).total(),
            match result {
                Ok(value) => faults::key_in(old(self).rest(), old(self).total()) == Parsed::Value(
                    value@,
                    final(self).rest(),
                ),
                Err(error) => faults::key_in(
                    old(self).rest(),
                    old(self).total(),
                ).refused_with(error),
            },
            match result {
                Ok(value) => {
                    &&& final(self).wf()
                    &&& encode::fits(value@.user_key)
                    &&& old(self).rest() == encode::enc_key(value@, final(self).rest())
                },
                Err(_) => {
                    forall|value: RecordKey, tail: Seq<u8>|
                        encode::fits(value.user_key) ==> old(self).rest()
                            != #[trigger] encode::enc_key(value, tail)
                },
            },
    {
        proof {
            reveal(faults::key_in);
            simple_layouts_are_unique();
        }
        let user_key: Vec<u8> = match self.read_bytes() {
            Ok(user_key) => user_key,
            Err(error) => {
                return Err(error);
            },
        };
        let sequence: u64 = match self.read_u64() {
            Ok(sequence) => sequence,
            Err(error) => {
                return Err(error);
            },
        };
        let kind: ValueKind = match self.read_value_kind() {
            Ok(kind) => kind,
            Err(error) => {
                return Err(error);
            },
        };
        let batch_index: u32 = match self.read_u32() {
            Ok(batch_index) => batch_index,
            Err(error) => {
                return Err(error);
            },
        };
        Ok(InternalKey::new(user_key, Sequence::new(sequence), kind, batch_index))
    }

    fn read_bucket_options(&mut self) -> (result: Result<BucketOptions>)
        requires
            old(self).wf(),
        ensures
            final(self).total() == old(self).total(),
            match result {
                Ok(_) => faults::options_in(
                    old(self).rest(),
                    old(self).total(),
                ).leaves(final(self).rest()),
                Err(error) => faults::options_in(
                    old(self).rest(),
                    old(self).total(),
                ).refused_with(error),
            },
            match result {
                Ok(value) => {
                    &&& final(self).wf()
                    &&& encode::prefix_fits(value@.prefix_extractor)
                    &&& old(self).rest() == encode::enc_options(value@, final(self).rest())
                },
                Err(_) => {
                    forall|value: BucketSettings, tail: Seq<u8>|
                        encode::prefix_fits(value.prefix_extractor) ==> old(self).rest()
                            != #[trigger] encode::enc_options(value, tail)
                },
            },
    {
        proof {
            reveal(faults::options_in);
            simple_layouts_are_unique();
            policy_facts();
        }
        let allow_empty_keys: bool = match self.read_bool() {
            Ok(value) => value,
            Err(error) => {
                return Err(error);
            },
        };
        let compression: CompressionProfile = match self.read_compression_profile() {
            Ok(value) => value,
            Err(error) => {
                return Err(error);
            },
        };
        let block_bytes: usize = match self.read_usize() {
            Ok(value) => value,
            Err(error) => {
                return Err(error);
            },
        };
        let filter_policy: FilterPolicy = match self.read_filter_policy() {
            Ok(value) => value,
            Err(error) => {
                return Err(error);
            },
        };
        let prefix_extractor: PrefixExtractor = match self.read_prefix_extractor() {
            Ok(value) => value,
            Err(error) => {
                return Err(error);
            },
        };
        let prefix_filter_policy: PrefixFilterPolicy = match self.read_prefix_filter_policy() {
            Ok(value) => value,
            Err(error) => {
                return Err(error);
            },
        };
        let index_search_policy: IndexSearchPolicy = match self.read_index_search_policy() {
            Ok(value) => value,
            Err(error) => {
                return Err(error);
            },
        };
        let blob_threshold_bytes: usize = match self.read_usize() {
            Ok(value) => value,
            Err(error) => {
                return Err(error);
            },
        };
        let blob_level_merge_policy: BlobLevelMergePolicy = match self.read_blob_level_merge_policy() {
            Ok(value) => value,
            Err(error) => {
                return Err(error);
            },
        };
        let filter_depth_curve: FilterDepthCurve = match self.read_filter_depth_curve() {
            Ok(value) => value,
            Err(error) => {
                return Err(error);
            },
        };
        Ok(
            BucketOptions {
                allow_empty_keys,
                compression,
                block_bytes,
                filter_policy,
                prefix_extractor,
                prefix_filter_policy,
                index_search_policy,
                blob_threshold_bytes,
                blob_level_merge_policy,
                filter_depth_curve,
            },
        )
    }

    fn read_blob_file_ids(&mut self) -> (result: Result<Vec<u64>>)
        requires
            old(self).wf(),
        ensures
            final(self).total() == old(self).total(),
            match result {
                Ok(_) => faults::ids_in(old(self).rest()).leaves(final(self).rest()),
                Err(error) => faults::ids_in(old(self).rest()).refused_with(error),
            },
            match result {
                Ok(ids) => {
                    &&& final(self).wf()
                    &&& ids@.len() <= u32::MAX
                    &&& increasing(ids@)
                    &&& old(self).rest() == encode::enc_u32(
                        ids@.len() as u32,
                        encode::enc_items(ids@, encode::id_layout(), final(self).rest()),
                    )
                },
                Err(_) => {
                    forall|all: Seq<u64>, tail: Seq<u8>|
                        all.len() <= u32::MAX && increasing(all) ==> old(self).rest()
                            != encode::enc_u32(
                            all.len() as u32,
                            #[trigger] encode::enc_items(all, encode::id_layout(), tail),
                        )
                },
            },
    {
        proof {
            reveal(faults::ids_in);
        }
        let ghost start = self.rest();
        let ghost enc = encode::id_layout();
        proof {
            simple_lengths();
            simple_layouts_are_unique();
            ids_are_unique();
        }
        let count: u32 = match self.read_u32() {
            Ok(count) => count,
            Err(error) => {
                return Err(error);
            },
        };
        let ghost whole = self.rest();
        if count as usize > self.remaining_len() / 8 {
            proof {
                assert forall|all: Seq<u64>, tail: Seq<u8>| all.len() <= u32::MAX implies start
                    != encode::enc_u32(
                    all.len() as u32,
                    #[trigger] encode::enc_items(all, enc, tail),
                ) by {
                    items_take_bytes(all, enc, 8, tail);
                }
            }
            return Err(invalid_manifest("blob file id count exceeds payload bytes"));
        }
        let mut ids: Vec<u64> = Vec::new();
        let mut i: u32 = 0;
        let ghost mut read: Seq<u64> = Seq::empty();
        while i < count
            invariant
                self.wf(),
                self.total() == old(self).total(),
                read.len() == i,
                read == ids@,
                faults::ids_in(start) == faults::items_in(
                    self.rest(),
                    (count - i) as nat,
                    read,
                    faults::id_item(),
                ),
                enc == encode::id_layout(),
                start == old(self).rest(),
                start == encode::enc_u32(count, whole),
                whole == encode::enc_items(ids@, enc, self.rest()),
                i <= count,
                ids@.len() == i,
                increasing(ids@),
                unique(enc, any_id()),
            decreases count - i,
        {
            let ghost done = ids@;
            let ghost rest = self.rest();
            let id: u64 = match self.read_u64() {
                Ok(id) => id,
                Err(error) => {
                    proof {
                        assert forall|all: Seq<u64>, tail: Seq<u8>|
                            all.len() <= u32::MAX && increasing(all) implies start
                            != encode::enc_u32(
                            all.len() as u32,
                            #[trigger] encode::enc_items(all, enc, tail),
                        ) by {
                            let items = encode::enc_items(all, enc, tail);
                            if start == encode::enc_u32(all.len() as u32, items) {
                                u32_is_unique(count, whole, all.len() as u32, items);
                                next_item(whole, done, rest, all, enc, any_id(), tail);
                            }
                        }
                    }
                    return Err(error);
                },
            };
            if ids.len() > 0 && ids[ids.len() - 1] >= id {
                proof {
                    let after = self.rest();
                    assert forall|all: Seq<u64>, tail: Seq<u8>|
                        all.len() <= u32::MAX && increasing(all) implies start != encode::enc_u32(
                        all.len() as u32,
                        #[trigger] encode::enc_items(all, enc, tail),
                    ) by {
                        let items = encode::enc_items(all, enc, tail);
                        if start == encode::enc_u32(all.len() as u32, items) {
                            u32_is_unique(count, whole, all.len() as u32, items);
                            next_item(whole, done, rest, all, enc, any_id(), tail);
                            u64_is_unique(
                                id,
                                after,
                                all[i as int],
                                encode::enc_items(all.skip(i + 1), enc, tail),
                            );
                            assert(done.last() == all[i - 1]);
                        }
                    }
                }
                return Err(invalid_manifest("blob file ids are not sorted"));
            }
            ids.push(id);
            proof {
                encode::items_push(done, id, enc, self.rest());
            }
            proof {
                read = read.push(id);
            }
            i += 1;
        }
        Ok(ids)
    }

    /// Reads what stands behind the file of a blob reference.
    fn read_blob_reference(&mut self, file_id: u64) -> (result: Result<TableBlobReference>)
        requires
            old(self).wf(),
        ensures
            final(self).total() == old(self).total(),
            match result {
                Ok(value) => faults::reference_in(
                    old(self).rest(),
                    old(self).total(),
                    file_id,
                ) == Parsed::Value(
                    value@,
                    final(self).rest(),
                ),
                Err(error) => faults::reference_in(
                    old(self).rest(),
                    old(self).total(),
                    file_id,
                ).refused_with(error),
            },
            match result {
                Ok(value) => {
                    &&& final(self).wf()
                    &&& encode::reference_fits(value@)
                    &&& value@.file_id == file_id
                    &&& encode::enc_u64(file_id, old(self).rest()) == encode::enc_reference(
                        value@,
                        final(self).rest(),
                    )
                },
                Err(_) => {
                    forall|value: BlobReference, tail: Seq<u8>|
                        encode::reference_fits(value) && value.file_id == file_id
                            ==> encode::enc_u64(file_id, old(self).rest())
                            != #[trigger] encode::enc_reference(value, tail)
                },
            },
    {
        proof {
            reveal(faults::reference_in);
            simple_layouts_are_unique();
            key_facts();
        }
        let referenced_bytes: u64 = match self.read_u64() {
            Ok(value) => value,
            Err(error) => {
                return Err(error);
            },
        };
        let referenced_record_count: u64 = match self.read_u64() {
            Ok(value) => value,
            Err(error) => {
                return Err(error);
            },
        };
        let smallest_internal_key: InternalKey = match self.read_internal_key() {
            Ok(value) => value,
            Err(error) => {
                return Err(error);
            },
        };
        let largest_internal_key: InternalKey = match self.read_internal_key() {
            Ok(value) => value,
            Err(error) => {
                return Err(error);
            },
        };
        Ok(
            TableBlobReference {
                file_id,
                referenced_bytes,
                referenced_record_count,
                smallest_internal_key,
                largest_internal_key,
            },
        )
    }

    fn read_blob_references(&mut self) -> (result: Result<Vec<TableBlobReference>>)
        requires
            old(self).wf(),
        ensures
            final(self).total() == old(self).total(),
            match result {
                Ok(_) => faults::references_in(
                    old(self).rest(),
                    old(self).total(),
                ).leaves(final(self).rest()),
                Err(error) => faults::references_in(
                    old(self).rest(),
                    old(self).total(),
                ).refused_with(error),
            },
            match result {
                Ok(list) => {
                    &&& final(self).wf()
                    &&& list@.len() <= u32::MAX
                    &&& references_readable(table::references_of(list@))
                    &&& old(self).rest() == encode::enc_u32(
                        list@.len() as u32,
                        encode::enc_items(
                            table::references_of(list@),
                            encode::reference_layout(),
                            final(self).rest(),
                        ),
                    )
                },
                Err(_) => {
                    forall|all: Seq<BlobReference>, tail: Seq<u8>|
                        all.len() <= u32::MAX && references_readable(all) ==> old(self).rest()
                            != encode::enc_u32(
                            all.len() as u32,
                            #[trigger] encode::enc_items(all, encode::reference_layout(), tail),
                        )
                },
            },
    {
        proof {
            reveal(faults::references_in);
        }
        let ghost start = self.rest();
        let ghost enc = encode::reference_layout();
        let ghost ok = fitting_reference();
        proof {
            simple_lengths();
            simple_layouts_are_unique();
            references_are_unique();
        }
        let count: u32 = match self.read_u32() {
            Ok(count) => count,
            Err(error) => {
                return Err(error);
            },
        };
        let ghost whole = self.rest();
        if count as usize > self.remaining_len() / 58 {
            proof {
                assert forall|all: Seq<BlobReference>, tail: Seq<u8>|
                    all.len() <= u32::MAX implies start != encode::enc_u32(
                    all.len() as u32,
                    #[trigger] encode::enc_items(all, enc, tail),
                ) by {
                    items_take_bytes(all, enc, 58, tail);
                }
            }
            return Err(invalid_manifest("blob reference count exceeds payload bytes"));
        }
        let mut list: Vec<TableBlobReference> = Vec::new();
        let mut i: u32 = 0;
        let ghost mut read: Seq<BlobReference> = Seq::empty();
        proof {
            assert(table::references_of(list@) =~= Seq::<BlobReference>::empty());
        }
        while i < count
            invariant
                self.wf(),
                self.total() == old(self).total(),
                read.len() == i,
                read == table::references_of(list@),
                faults::references_in(start, old(self).total()) == faults::items_in(
                    self.rest(),
                    (count - i) as nat,
                    read,
                    faults::reference_item(old(self).total()),
                ),
                enc == encode::reference_layout(),
                ok == fitting_reference(),
                start == old(self).rest(),
                start == encode::enc_u32(count, whole),
                whole == encode::enc_items(table::references_of(list@), enc, self.rest()),
                i <= count,
                list@.len() == i,
                references_readable(table::references_of(list@)),
                unique(enc, ok),
            decreases count - i,
        {
            let ghost done = table::references_of(list@);
            let ghost rest = self.rest();
            proof {
                assert forall|all: Seq<BlobReference>, tail: Seq<u8>|
                    all.len() <= u32::MAX && references_readable(all) && start == encode::enc_u32(
                        all.len() as u32,
                        #[trigger] encode::enc_items(all, enc, tail),
                    ) implies all.len() == count && done == all.take(i as int)
                    && reference_readable(all[i as int]) && rest == encode::enc_reference(
                    all[i as int],
                    encode::enc_items(all.skip(i + 1), enc, tail),
                ) by {
                    let items = encode::enc_items(all, enc, tail);
                    u32_is_unique(count, whole, all.len() as u32, items);
                    next_item(whole, done, rest, all, enc, ok, tail);
                    assert(reference_readable(all[i as int]));
                }
            }
            let file_id: u64 = match self.read_u64() {
                Ok(file_id) => file_id,
                Err(error) => {
                    return Err(error);
                },
            };
            let ghost after_id = self.rest();
            proof {
                assert forall|all: Seq<BlobReference>, tail: Seq<u8>|
                    all.len() <= u32::MAX && references_readable(all) && start == encode::enc_u32(
                        all.len() as u32,
                        #[trigger] encode::enc_items(all, enc, tail),
                    ) implies file_id == all[i as int].file_id by {
                    simple_layouts_are_unique();
                }
            }
            if list.len() > 0 && list[list.len() - 1].file_id >= file_id {
                proof {
                    assert forall|all: Seq<BlobReference>, tail: Seq<u8>|
                        all.len() <= u32::MAX && references_readable(all) implies start
                        != encode::enc_u32(
                        all.len() as u32,
                        #[trigger] encode::enc_items(all, enc, tail),
                    ) by {
                        if start == encode::enc_u32(
                            all.len() as u32,
                            encode::enc_items(all, enc, tail),
                        ) {
                            assert(done.last() == all[i - 1]);
                            assert(all[i - 1].file_id < all[i as int].file_id);
                        }
                    }
                }
                return Err(invalid_manifest("blob references are not sorted"));
            }
            let reference: TableBlobReference = match self.read_blob_reference(file_id) {
                Ok(reference) => reference,
                Err(error) => {
                    return Err(error);
                },
            };
            let ghost added = reference@;
            let ghost after = self.rest();
            if reference.largest_internal_key.comes_before(&reference.smallest_internal_key) {
                proof {
                    assert forall|all: Seq<BlobReference>, tail: Seq<u8>|
                        all.len() <= u32::MAX && references_readable(all) implies start
                        != encode::enc_u32(
                        all.len() as u32,
                        #[trigger] encode::enc_items(all, enc, tail),
                    ) by {
                        if start == encode::enc_u32(
                            all.len() as u32,
                            encode::enc_items(all, enc, tail),
                        ) {
                            reference_is_unique(
                                added,
                                after,
                                all[i as int],
                                encode::enc_items(all.skip(i + 1), enc, tail),
                            );
                        }
                    }
                }
                return Err(invalid_manifest("blob reference key bounds are invalid"));
            }
            list.push(reference);
            proof {
                let longer = table::references_of(list@);
                assert(longer =~= done.push(added));
                assert forall|a: int, b: int| 0 <= a < b < longer.len() implies (
                #[trigger] longer[a]).file_id < (#[trigger] longer[b]).file_id by {
                    if b == done.len() {
                        assert(done.last().file_id < added.file_id);
                        if a < done.len() - 1 {
                            assert(done[a].file_id < done[done.len() - 1].file_id);
                        }
                    } else {
                        assert(done[a].file_id < done[b].file_id);
                    }
                }
                assert forall|a: int| 0 <= a < longer.len() implies reference_readable(
                    #[trigger] longer[a],
                ) by {
                    if a < done.len() {
                        assert(reference_readable(done[a]));
                    }
                }
                encode::items_push(done, added, enc, self.rest());
            }
            proof {
                read = read.push(added);
            }
            i += 1;
        }
        Ok(list)
    }

    fn read_table_properties(&mut self) -> (result: Result<TableProperties>)
        requires
            old(self).wf(),
        ensures
            final(self).total() == old(self).total(),
            match result {
                Ok(_) => faults::table_in(
                    old(self).rest(),
                    old(self).total(),
                ).leaves(final(self).rest()),
                Err(error) => faults::table_in(
                    old(self).rest(),
                    old(self).total(),
                ).refused_with(error),
            },
            match result {
                Ok(value) => {
                    &&& final(self).wf()
                    &&& table_readable(value@)
                    &&& old(self).rest() == encode::enc_table(value@, final(self).rest())
                },
                Err(_) => {
                    forall|value: TableSummary, tail: Seq<u8>|
                        table_readable(value) ==> old(self).rest() != #[trigger] encode::enc_table(
                            value,
                            tail,
                        )
                },
            },
    {
        proof {
            reveal(faults::table_in);
            simple_layouts_are_unique();
        }
        let id: u64 = match self.read_u64() {
            Ok(value) => value,
            Err(error) => {
                return Err(error);
            },
        };
        let level: u32 = match self.read_u32() {
            Ok(value) => value,
            Err(error) => {
                return Err(error);
            },
        };
        let smallest_user_key: Vec<u8> = match self.read_bytes() {
            Ok(value) => value,
            Err(error) => {
                return Err(error);
            },
        };
        let largest_user_key: Vec<u8> = match self.read_bytes() {
            Ok(value) => value,
            Err(error) => {
                return Err(error);
            },
        };
        let smallest_sequence: u64 = match self.read_u64() {
            Ok(value) => value,
            Err(error) => {
                return Err(error);
            },
        };
        let largest_sequence: u64 = match self.read_u64() {
            Ok(value) => value,
            Err(error) => {
                return Err(error);
            },
        };
        let codec: CodecId = match self.read_codec() {
            Ok(value) => value,
            Err(error) => {
                return Err(error);
            },
        };
        let ghost ids_start = self.rest();
        let blob_file_ids: Vec<u64> = match self.read_blob_file_ids() {
            Ok(value) => value,
            Err(error) => {
                return Err(error);
            },
        };
        let ghost references_start = self.rest();
        proof {
            assert forall|value: TableSummary, tail: Seq<u8>|
                table_readable(value) && ids_start == #[trigger] encode::enc_table_blobs(
                    value,
                    tail,
                ) implies value.blob_file_ids == blob_file_ids@ && references_start
                == encode::enc_u32(
                value.blob_references.len() as u32,
                encode::enc_items(value.blob_references, encode::reference_layout(), tail),
            ) by {
                let more = encode::enc_u32(
                    value.blob_references.len() as u32,
                    encode::enc_items(value.blob_references, encode::reference_layout(), tail),
                );
                ids_are_unique();
                u32_is_unique(
                    blob_file_ids@.len() as u32,
                    encode::enc_items(blob_file_ids@, encode::id_layout(), references_start),
                    value.blob_file_ids.len() as u32,
                    encode::enc_items(value.blob_file_ids, encode::id_layout(), more),
                );
                items_are_unique(
                    blob_file_ids@,
                    value.blob_file_ids,
                    encode::id_layout(),
                    any_id(),
                    references_start,
                    more,
                );
            }
        }
        let blob_references: Vec<TableBlobReference> = match self.read_blob_references() {
            Ok(value) => value,
            Err(error) => {
                return Err(error);
            },
        };
        Ok(
            TableProperties {
                id: TableId(id),
                level: TableLevel(level),
                smallest_user_key,
                largest_user_key,
                smallest_sequence: Sequence::new(smallest_sequence),
                largest_sequence: Sequence::new(largest_sequence),
                codec,
                blob_file_ids,
                blob_references,
            },
        )
    }

    fn read_table_list(&mut self, count: u32) -> (result: Result<Vec<TableProperties>>)
        requires
            old(self).wf(),
        ensures
            final(self).total() == old(self).total(),
            match result {
                Ok(_) => faults::tables_of_bucket_in(
                    old(self).rest(),
                    old(self).total(),
                    count,
                ).leaves(
                    final(self).rest(),
                ),
                Err(error) => faults::tables_of_bucket_in(
                    old(self).rest(),
                    old(self).total(),
                    count,
                ).refused_with(
                    error,
                ),
            },
            match result {
                Ok(list) => {
                    &&& final(self).wf()
                    &&& list@.len() == count
                    &&& tables_readable(list.deep_view())
                    &&& old(self).rest() == encode::enc_items(
                        list.deep_view(),
                        encode::table_layout(),
                        final(self).rest(),
                    )
                },
                Err(_) => {
                    forall|all: Seq<TableSummary>, tail: Seq<u8>|
                        all.len() == count && tables_readable(all) ==> old(self).rest()
                            != #[trigger] encode::enc_items(all, encode::table_layout(), tail)
                },
            },
    {
        proof {
            reveal(faults::tables_of_bucket_in);
        }
        let ghost whole = self.rest();
        let ghost enc = encode::table_layout();
        let ghost ok = fitting_table();
        proof {
            tables_are_unique();
        }
        if count as usize > self.remaining_len() / encode::MIN_TABLE_PROPERTY_BYTES {
            proof {
                assert forall|all: Seq<TableSummary>, tail: Seq<u8>| all.len() == count implies whole
                    != #[trigger] encode::enc_items(all, enc, tail) by {
                    table_takes_bytes();
                    items_take_bytes(all, enc, 45, tail);
                }
            }
            return Err(invalid_manifest("table count exceeds payload bytes"));
        }
        let mut list: Vec<TableProperties> = Vec::new();
        let mut i: u32 = 0;
        let ghost mut read: Seq<()> = Seq::empty();
        proof {
            assert(list.deep_view() =~= Seq::<TableSummary>::empty());
        }
        while i < count
            invariant
                self.wf(),
                self.total() == old(self).total(),
                read.len() == i,
                faults::tables_of_bucket_in(whole, old(self).total(), count) == faults::items_in(
                    self.rest(),
                    (count - i) as nat,
                    read,
                    faults::table_item(old(self).total()),
                ),
                enc == encode::table_layout(),
                ok == fitting_table(),
                whole == old(self).rest(),
                whole == encode::enc_items(list.deep_view(), enc, self.rest()),
                i <= count,
                list@.len() == i,
                tables_readable(list.deep_view()),
                unique(enc, ok),
            decreases count - i,
        {
            let ghost done = list.deep_view();
            let ghost rest = self.rest();
            let properties: TableProperties = match self.read_table_properties() {
                Ok(properties) => properties,
                Err(error) => {
                    proof {
                        assert forall|all: Seq<TableSummary>, tail: Seq<u8>|
                            all.len() == count && tables_readable(all) implies whole
                            != #[trigger] encode::enc_items(all, enc, tail) by {
                            if whole == encode::enc_items(all, enc, tail) {
                                readable_tables_fit(done);
                                readable_tables_fit(all);
                                next_item(whole, done, rest, all, enc, ok, tail);
                                assert(table_readable(all[i as int]));
                            }
                        }
                    }
                    return Err(error);
                },
            };
            let ghost added = properties@;
            list.push(properties);
            proof {
                let longer = list.deep_view();
                assert(longer =~= done.push(added));
                assert forall|a: int| 0 <= a < longer.len() implies table_readable(
                    #[trigger] longer[a],
                ) by {
                    if a < done.len() {
                        assert(table_readable(done[a]));
                    }
                }
                encode::items_push(done, added, enc, self.rest());
            }
            proof {
                read = read.push(());
            }
            i += 1;
        }
        Ok(list)
    }

    fn read_tables(&mut self) -> (result: Result<NameMap<Vec<TableProperties>>>)
        requires
            old(self).wf(),
        ensures
            final(self).total() == old(self).total(),
            match result {
                Ok(_) => faults::tables_in(
                    old(self).rest(),
                    old(self).total(),
                ).leaves(final(self).rest()),
                Err(error) => faults::tables_in(
                    old(self).rest(),
                    old(self).total(),
                ).refused_with(error),
            },
            match result {
                Ok(tables) => {
                    &&& final(self).wf()
                    &&& tables.wf()
                    &&& tables.pairs().len() <= u32::MAX
                    &&& table_buckets_readable(tables.pairs())
                    &&& old(self).rest() == encode::enc_u32(
                        tables.pairs().len() as u32,
                        encode::enc_items(
                            tables.pairs(),
                            encode::table_bucket_layout(),
                            final(self).rest(),
                        ),
                    )
                },
                Err(_) => {
                    forall|all: Seq<(Seq<char>, Seq<TableSummary>)>, tail: Seq<u8>|
                        all.len() <= u32::MAX && ordered::names_sorted(all)
                            && table_buckets_readable(all) ==> old(self).rest() != encode::enc_u32(
                            all.len() as u32,
                            #[trigger] encode::enc_items(all, encode::table_bucket_layout(), tail),
                        )
                },
            },
    {
        proof {
            reveal(faults::tables_in);
        }
        let ghost start = self.rest();
        let ghost enc = encode::table_bucket_layout();
        let ghost ok = fitting_table_bucket();
        proof {
            simple_layouts_are_unique();
            table_buckets_are_unique();
            ordered::name_order_facts();
        }
        let count: u32 = match self.read_u32() {
            Ok(count) => count,
            Err(error) => {
                return Err(error);
            },
        };
        let ghost whole = self.rest();
        let mut tables: NameMap<Vec<TableProperties>> = NameMap::new();
        let mut i: u32 = 0;
        let ghost mut read: Seq<Seq<char>> = Seq::empty();
        while i < count
            invariant
                self.wf(),
                self.total() == old(self).total(),
                read.len() == i,
                i > 0 ==> read.last() == tables.pairs().last().0,
                faults::tables_in(start, old(self).total()) == faults::items_in(
                    self.rest(),
                    (count - i) as nat,
                    read,
                    faults::table_bucket_item(old(self).total()),
                ),
                tables.wf(),
                enc == encode::table_bucket_layout(),
                ok == fitting_table_bucket(),
                start == old(self).rest(),
                start == encode::enc_u32(count, whole),
                whole == encode::enc_items(tables.pairs(), enc, self.rest()),
                i <= count,
                tables.pairs().len() == i,
                table_buckets_readable(tables.pairs()),
                unique(enc, ok),
                forall|a: Seq<char>, b: Seq<char>| #[trigger]
                    ordered::name_lt(a, b) ==> !ordered::name_lt(b, a),
                forall|a: Seq<char>| !#[trigger] ordered::name_lt(a, a),
            decreases count - i,
        {
            let ghost done = tables.pairs();
            let ghost rest = self.rest();
            let bucket: String = match self.read_name("manifest table bucket is not valid UTF-8") {
                Ok(bucket) => bucket,
                Err(error) => {
                    proof {
                        assert forall|all: Seq<(Seq<char>, Seq<TableSummary>)>, tail: Seq<u8>|
                            all.len() <= u32::MAX && ordered::names_sorted(all)
                                && table_buckets_readable(all) implies start != encode::enc_u32(
                            all.len() as u32,
                            #[trigger] encode::enc_items(all, enc, tail),
                        ) by {
                            let items = encode::enc_items(all, enc, tail);
                            if start == encode::enc_u32(all.len() as u32, items) {
                                u32_is_unique(count, whole, all.len() as u32, items);
                                readable_table_buckets_fit(done);
                                readable_table_buckets_fit(all);
                                next_item(whole, done, rest, all, enc, ok, tail);
                                assert(table_bucket_readable(all[i as int]));
                            }
                        }
                    }
                    return Err(error);
                },
            };
            let ghost after_name = self.rest();
            proof {
                assert forall|all: Seq<(Seq<char>, Seq<TableSummary>)>, tail: Seq<u8>|
                    all.len() <= u32::MAX && table_buckets_readable(all) && start
                        == encode::enc_u32(
                        all.len() as u32,
                        #[trigger] encode::enc_items(all, enc, tail),
                    ) implies all.len() == count && done == all.take(i as int) && bucket@
                    == all[i as int].0 && after_name == encode::enc_u32(
                    all[i as int].1.len() as u32,
                    encode::enc_items(
                        all[i as int].1,
                        encode::table_layout(),
                        encode::enc_items(all.skip(i + 1), enc, tail),
                    ),
                ) && table_bucket_readable(all[i as int]) by {
                    let items = encode::enc_items(all, enc, tail);
                    u32_is_unique(count, whole, all.len() as u32, items);
                    readable_table_buckets_fit(done);
                    readable_table_buckets_fit(all);
                    next_item(whole, done, rest, all, enc, ok, tail);
                    assert(table_bucket_readable(all[i as int]));
                    let next = all[i as int];
                    name_is_unique(
                        bucket@,
                        after_name,
                        next.0,
                        encode::enc_u32(
                            next.1.len() as u32,
                            encode::enc_items(
                                next.1,
                                encode::table_layout(),
                                encode::enc_items(all.skip(i + 1), enc, tail),
                            ),
                        ),
                    );
                }
            }
            if tables.len() > 0 {
                let in_order: bool = match ordered::order_names(
                    tables.name_at(tables.len() - 1),
                    bucket.as_str(),
                ) {
                    KeyOrder::Less => true,
                    _ => false,
                };
                if !in_order {
                    proof {
                        assert forall|all: Seq<(Seq<char>, Seq<TableSummary>)>, tail: Seq<u8>|
                            all.len() <= u32::MAX && ordered::names_sorted(all)
                                && table_buckets_readable(all) implies start != encode::enc_u32(
                            all.len() as u32,
                            #[trigger] encode::enc_items(all, enc, tail),
                        ) by {
                            if start == encode::enc_u32(
                                all.len() as u32,
                                encode::enc_items(all, enc, tail),
                            ) {
                                assert(done.last() == all[i - 1]);
                                assert(ordered::name_lt(all[i - 1].0, all[i as int].0));
                            }
                        }
                    }
                    return Err(invalid_manifest("manifest table buckets are not strictly sorted"));
                }
            }
            let table_count: u32 = match self.read_u32() {
                Ok(table_count) => table_count,
                Err(error) => {
                    return Err(error);
                },
            };
            let ghost list_start = self.rest();
            let table_list: Vec<TableProperties> = match self.read_table_list(table_count) {
                Ok(table_list) => table_list,
                Err(error) => {
                    proof {
                        assert forall|all: Seq<(Seq<char>, Seq<TableSummary>)>, tail: Seq<u8>|
                            all.len() <= u32::MAX && ordered::names_sorted(all)
                                && table_buckets_readable(all) implies start != encode::enc_u32(
                            all.len() as u32,
                            #[trigger] encode::enc_items(all, enc, tail),
                        ) by {
                            if start == encode::enc_u32(
                                all.len() as u32,
                                encode::enc_items(all, enc, tail),
                            ) {
                                let next = all[i as int].1;
                                let more = encode::enc_items(all.skip(i + 1), enc, tail);
                                u32_is_unique(
                                    table_count,
                                    list_start,
                                    next.len() as u32,
                                    encode::enc_items(next, encode::table_layout(), more),
                                );
                                assert(tables_readable(next));
                            }
                        }
                    }
                    return Err(error);
                },
            };
            let ghost added = (bucket@, table_list.deep_view());
            assert(table_list.deep_view().len() == table_list@.len());
            tables.push_last(bucket, table_list);
            proof {
                let longer = tables.pairs();
                assert(table_bucket_readable(added));
                assert forall|a: int| 0 <= a < longer.len() implies table_bucket_readable(
                    #[trigger] longer[a],
                ) by {
                    if a < done.len() {
                        assert(table_bucket_readable(done[a]));
                    }
                }
                encode::items_push(done, added, enc, self.rest());
            }
            proof {
                read = read.push(added.0);
            }
            i += 1;
        }
        Ok(tables)
    }

    fn read_pending_blob_deletions(&mut self) -> (result: Result<BTreeMap<u64, Sequence>>)
        requires
            old(self).wf(),
        ensures
            final(self).total() == old(self).total(),
            match result {
                Ok(_) => faults::pending_in(old(self).rest()).leaves(final(self).rest()),
                Err(error) => faults::pending_in(old(self).rest()).refused_with(error),
            },
            match result {
                Ok(pending) => {
                    &&& final(self).wf()
                    &&& ordered::ids_sorted(ordered::id_pairs(pending@))
                    &&& ordered::id_pairs(pending@).len() <= u32::MAX
                    &&& old(self).rest() == encode::enc_u32(
                        ordered::id_pairs(pending@).len() as u32,
                        encode::enc_items(
                            ordered::id_pairs(pending@),
                            encode::pending_layout(),
                            final(self).rest(),
                        ),
                    )
                },
                Err(_) => {
                    forall|all: Seq<(u64, Sequence)>, tail: Seq<u8>|
                        all.len() <= u32::MAX && ordered::ids_sorted(all) ==> old(self).rest()
                            != encode::enc_u32(
                            all.len() as u32,
                            #[trigger] encode::enc_items(all, encode::pending_layout(), tail),
                        )
                },
            },
    {
        proof {
            reveal(faults::pending_in);
        }
        let ghost start = self.rest();
        let ghost enc = encode::pending_layout();
        let ghost ok = any_pending();
        proof {
            simple_lengths();
            simple_layouts_are_unique();
            pending_are_unique();
        }
        let count: u32 = match self.read_u32() {
            Ok(count) => count,
            Err(error) => {
                return Err(error);
            },
        };
        let ghost whole = self.rest();
        if count as usize > self.remaining_len() / 16 {
            proof {
                assert forall|all: Seq<(u64, Sequence)>, tail: Seq<u8>|
                    all.len() <= u32::MAX implies start != encode::enc_u32(
                    all.len() as u32,
                    #[trigger] encode::enc_items(all, enc, tail),
                ) by {
                    items_take_bytes(all, enc, 16, tail);
                }
            }
            return Err(invalid_manifest("pending blob deletion count exceeds payload bytes"));
        }
        let mut pending: BTreeMap<u64, Sequence> = BTreeMap::new();
        let mut previous: Option<u64> = None;
        proof {
            ordered::no_id_pairs();
        }
        let mut i: u32 = 0;
        let ghost mut read: Seq<u64> = Seq::empty();
        while i < count
            invariant
                self.wf(),
                self.total() == old(self).total(),
                read.len() == i,
                match previous {
                    Some(previous) => i > 0 && read.last() == previous && ordered::id_pairs(
                        pending@,
                    ).last().0 == previous,
                    None => i == 0,
                },
                faults::pending_in(start) == faults::items_in(
                    self.rest(),
                    (count - i) as nat,
                    read,
                    faults::pending_item(),
                ),
                ordered::ids_sorted(ordered::id_pairs(pending@)),
                enc == encode::pending_layout(),
                ok == any_pending(),
                start == old(self).rest(),
                start == encode::enc_u32(count, whole),
                whole == encode::enc_items(ordered::id_pairs(pending@), enc, self.rest()),
                i <= count,
                ordered::id_pairs(pending@).len() == i,
                unique(enc, ok),
            decreases count - i,
        {
            let ghost done = ordered::id_pairs(pending@);
            let ghost rest = self.rest();
            proof {
                assert forall|all: Seq<(u64, Sequence)>, tail: Seq<u8>|
                    all.len() <= u32::MAX && start == encode::enc_u32(
                        all.len() as u32,
                        #[trigger] encode::enc_items(all, enc, tail),
                    ) implies all.len() == count && done == all.take(i as int) && rest
                    == encode::enc_u64(
                    all[i as int].0,
                    encode::enc_u64(
                        all[i as int].1.0,
                        encode::enc_items(all.skip(i + 1), enc, tail),
                    ),
                ) by {
                    let items = encode::enc_items(all, enc, tail);
                    u32_is_unique(count, whole, all.len() as u32, items);
                    next_item(whole, done, rest, all, enc, ok, tail);
                }
            }
            let file_id: u64 = match self.read_u64() {
                Ok(file_id) => file_id,
                Err(error) => {
                    return Err(error);
                },
            };
            let ghost after_id = self.rest();
            proof {
                assert forall|all: Seq<(u64, Sequence)>, tail: Seq<u8>|
                    all.len() <= u32::MAX && start == encode::enc_u32(
                        all.len() as u32,
                        #[trigger] encode::enc_items(all, enc, tail),
                    ) implies file_id == all[i as int].0 && after_id == encode::enc_u64(
                    all[i as int].1.0,
                    encode::enc_items(all.skip(i + 1), enc, tail),
                ) by {
                    u64_is_unique(
                        file_id,
                        after_id,
                        all[i as int].0,
                        encode::enc_u64(
                            all[i as int].1.0,
                            encode::enc_items(all.skip(i + 1), enc, tail),
                        ),
                    );
                }
            }
            let unsorted: bool = match previous {
                Some(previous) => previous >= file_id,
                None => false,
            };
            if unsorted {
                proof {
                    assert forall|all: Seq<(u64, Sequence)>, tail: Seq<u8>|
                        all.len() <= u32::MAX && ordered::ids_sorted(all) implies start
                        != encode::enc_u32(
                        all.len() as u32,
                        #[trigger] encode::enc_items(all, enc, tail),
                    ) by {
                        if start == encode::enc_u32(
                            all.len() as u32,
                            encode::enc_items(all, enc, tail),
                        ) {
                            assert(done.last() == all[i - 1]);
                            assert(all[i - 1].0 < all[i as int].0);
                        }
                    }
                }
                return Err(invalid_manifest("pending blob deletions are not sorted"));
            }
            let sequence: u64 = match self.read_u64() {
                Ok(sequence) => sequence,
                Err(error) => {
                    return Err(error);
                },
            };
            proof {
                ordered::last_id_pair(pending@, file_id, Sequence(sequence));
                ordered::id_pairs_stand_for(pending@.insert(file_id, Sequence(sequence)));
            }
            let _ = pending.insert(file_id, Sequence::new(sequence));
            previous = Some(file_id);
            proof {
                encode::items_push(done, (file_id, Sequence(sequence)), enc, self.rest());
            }
            proof {
                read = read.push(file_id);
            }
            i += 1;
        }
        Ok(pending)
    }

    fn read_checkpoints(&mut self) -> (result: Result<NameMap<Sequence>>)
        requires
            old(self).wf(),
        ensures
            final(self).total() == old(self).total(),
            match result {
                Ok(_) => faults::checkpoints_in(
                    old(self).rest(),
                    old(self).total(),
                ).leaves(final(self).rest()),
                Err(error) => faults::checkpoints_in(
                    old(self).rest(),
                    old(self).total(),
                ).refused_with(error),
            },
            match result {
                Ok(checkpoints) => {
                    &&& final(self).wf()
                    &&& checkpoints.wf()
                    &&& checkpoints.pairs().len() <= u32::MAX
                    &&& checkpoints_readable(checkpoints.pairs())
                    &&& old(self).rest() == encode::enc_u32(
                        checkpoints.pairs().len() as u32,
                        encode::enc_items(
                            checkpoints.pairs(),
                            encode::checkpoint_layout(),
                            final(self).rest(),
                        ),
                    )
                },
                Err(_) => {
                    forall|all: Seq<(Seq<char>, Sequence)>, tail: Seq<u8>|
                        all.len() <= u32::MAX && ordered::names_sorted(all) && checkpoints_readable(
                            all,
                        ) ==> old(self).rest() != encode::enc_u32(
                            all.len() as u32,
                            #[trigger] encode::enc_items(all, encode::checkpoint_layout(), tail),
                        )
                },
            },
    {
        proof {
            reveal(faults::checkpoints_in);
        }
        let ghost start = self.rest();
        let ghost enc = encode::checkpoint_layout();
        let ghost ok = fitting_checkpoint();
        proof {
            simple_lengths();
            simple_layouts_are_unique();
            checkpoints_are_unique();
            ordered::name_order_facts();
        }
        let count: u32 = match self.read_u32() {
            Ok(count) => count,
            Err(error) => {
                return Err(error);
            },
        };
        let ghost whole = self.rest();
        if count as usize > self.remaining_len() / 12 {
            proof {
                assert forall|all: Seq<(Seq<char>, Sequence)>, tail: Seq<u8>|
                    all.len() <= u32::MAX implies start != encode::enc_u32(
                    all.len() as u32,
                    #[trigger] encode::enc_items(all, enc, tail),
                ) by {
                    items_take_bytes(all, enc, 12, tail);
                }
            }
            return Err(invalid_manifest("checkpoint count exceeds payload bytes"));
        }
        let mut checkpoints: NameMap<Sequence> = NameMap::new();
        let mut i: u32 = 0;
        let ghost mut read: Seq<Seq<char>> = Seq::empty();
        while i < count
            invariant
                self.wf(),
                self.total() == old(self).total(),
                read.len() == i,
                i > 0 ==> read.last() == checkpoints.pairs().last().0,
                faults::checkpoints_in(start, old(self).total()) == faults::items_in(
                    self.rest(),
                    (count - i) as nat,
                    read,
                    faults::checkpoint_item(old(self).total()),
                ),
                checkpoints.wf(),
                enc == encode::checkpoint_layout(),
                ok == fitting_checkpoint(),
                start == old(self).rest(),
                start == encode::enc_u32(count, whole),
                whole == encode::enc_items(checkpoints.pairs(), enc, self.rest()),
                i <= count,
                checkpoints.pairs().len() == i,
                checkpoints_readable(checkpoints.pairs()),
                unique(enc, ok),
                forall|a: Seq<char>, b: Seq<char>| #[trigger]
                    ordered::name_lt(a, b) ==> !ordered::name_lt(b, a),
                forall|a: Seq<char>| !#[trigger] ordered::name_lt(a, a),
            decreases count - i,
        {
            let ghost done = checkpoints.pairs();
            let ghost rest = self.rest();
            proof {
                assert forall|all: Seq<(Seq<char>, Sequence)>, tail: Seq<u8>|
                    all.len() <= u32::MAX && checkpoints_readable(all) && start == encode::enc_u32(
                        all.len() as u32,
                        #[trigger] encode::enc_items(all, enc, tail),
                    ) implies all.len() == count && done == all.take(i as int)
                    && checkpoint_readable(all[i as int]) && rest == encode::enc_name(
                    all[i as int].0,
                    encode::enc_u64(
                        all[i as int].1.0,
                        encode::enc_items(all.skip(i + 1), enc, tail),
                    ),
                ) by {
                    let items = encode::enc_items(all, enc, tail);
                    u32_is_unique(count, whole, all.len() as u32, items);
                    readable_checkpoints_fit(done);
                    readable_checkpoints_fit(all);
                    next_item(whole, done, rest, all, enc, ok, tail);
                    assert(checkpoint_readable(all[i as int]));
                }
            }
            let name: String = match self.read_name("manifest checkpoint name is not valid UTF-8") {
                Ok(name) => name,
                Err(error) => {
                    return Err(error);
                },
            };
            let ghost after_name = self.rest();
            proof {
                assert forall|all: Seq<(Seq<char>, Sequence)>, tail: Seq<u8>|
                    all.len() <= u32::MAX && checkpoints_readable(all) && start == encode::enc_u32(
                        all.len() as u32,
                        #[trigger] encode::enc_items(all, enc, tail),
                    ) implies name@ == all[i as int].0 && after_name == encode::enc_u64(
                    all[i as int].1.0,
                    encode::enc_items(all.skip(i + 1), enc, tail),
                ) by {
                    name_is_unique(
                        name@,
                        after_name,
                        all[i as int].0,
                        encode::enc_u64(
                            all[i as int].1.0,
                            encode::enc_items(all.skip(i + 1), enc, tail),
                        ),
                    );
                }
            }
            if name.as_str().is_empty() {
                return Err(invalid_manifest("checkpoint name is empty"));
            }
            if checkpoints.len() > 0 {
                let in_order: bool = match ordered::order_names(
                    checkpoints.name_at(checkpoints.len() - 1),
                    name.as_str(),
                ) {
                    KeyOrder::Less => true,
                    _ => false,
                };
                if !in_order {
                    proof {
                        assert forall|all: Seq<(Seq<char>, Sequence)>, tail: Seq<u8>|
                            all.len() <= u32::MAX && ordered::names_sorted(all)
                                && checkpoints_readable(all) implies start != encode::enc_u32(
                            all.len() as u32,
                            #[trigger] encode::enc_items(all, enc, tail),
                        ) by {
                            if start == encode::enc_u32(
                                all.len() as u32,
                                encode::enc_items(all, enc, tail),
                            ) {
                                assert(done.last() == all[i - 1]);
                                assert(ordered::name_lt(all[i - 1].0, all[i as int].0));
                            }
                        }
                    }
                    return Err(invalid_manifest("checkpoints are not sorted"));
                }
            }
            let sequence: u64 = match self.read_u64() {
                Ok(sequence) => sequence,
                Err(error) => {
                    return Err(error);
                },
            };
            let ghost added = (name@, Sequence(sequence));
            checkpoints.push_last(name, Sequence::new(sequence));
            proof {
                let longer = checkpoints.pairs();
                assert forall|a: int| 0 <= a < longer.len() implies checkpoint_readable(
                    #[trigger] longer[a],
                ) by {
                    if a < done.len() {
                        assert(checkpoint_readable(done[a]));
                    }
                }
                encode::items_push(done, added, enc, self.rest());
            }
            proof {
                read = read.push(added.0);
            }
            i += 1;
        }
        Ok(checkpoints)
    }

    fn read_buckets(&mut self) -> (result: Result<(NameMap<BucketOptions>, NameMap<u64>)>)
        requires
            old(self).wf(),
        ensures
            final(self).total() == old(self).total(),
            match result {
                Ok(_) => faults::buckets_in(
                    old(self).rest(),
                    old(self).total(),
                ).leaves(final(self).rest()),
                Err(error) => faults::buckets_in(
                    old(self).rest(),
                    old(self).total(),
                ).refused_with(error),
            },
            match result {
                Ok((buckets, generations)) => {
                    &&& final(self).wf()
                    &&& buckets.wf()
                    &&& generations.wf()
                    &&& state::names_of(generations.pairs()) == state::names_of(buckets.pairs())
                    &&& buckets.pairs().len() <= u32::MAX
                    &&& rows_fit(rows_of(buckets.pairs(), generations.pairs()))
                    &&& old(self).rest() == encode::enc_u32(
                        buckets.pairs().len() as u32,
                        encode::enc_items(
                            rows_of(buckets.pairs(), generations.pairs()),
                            encode::bucket_layout(),
                            final(self).rest(),
                        ),
                    )
                },
                Err(_) => {
                    forall|all: Seq<BucketRow>, tail: Seq<u8>|
                        all.len() <= u32::MAX && rows_sorted(all) && rows_fit(all) ==> old(
                            self,
                        ).rest() != encode::enc_u32(
                            all.len() as u32,
                            #[trigger] encode::enc_items(all, encode::bucket_layout(), tail),
                        )
                },
            },
    {
        proof {
            reveal(faults::buckets_in);
        }
        let ghost start = self.rest();
        let ghost enc = encode::bucket_layout();
        let ghost ok = fitting_bucket();
        proof {
            simple_layouts_are_unique();
            buckets_are_unique();
            ordered::name_order_facts();
        }
        let count: u32 = match self.read_u32() {
            Ok(count) => count,
            Err(error) => {
                return Err(error);
            },
        };
        let ghost whole = self.rest();
        let mut buckets: NameMap<BucketOptions> = NameMap::new();
        let mut generations: NameMap<u64> = NameMap::new();
        let mut i: u32 = 0;
        let ghost mut read: Seq<Seq<char>> = Seq::empty();
        proof {
            assert(rows_of(buckets.pairs(), generations.pairs()) =~= Seq::<BucketRow>::empty());
            assert(state::names_of(generations.pairs()) =~= state::names_of(buckets.pairs()));
        }
        while i < count
            invariant
                self.wf(),
                self.total() == old(self).total(),
                read.len() == i,
                i > 0 ==> read.last() == buckets.pairs().last().0,
                faults::buckets_in(start, old(self).total()) == faults::items_in(
                    self.rest(),
                    (count - i) as nat,
                    read,
                    faults::bucket_item(old(self).total()),
                ),
                buckets.wf(),
                generations.wf(),
                enc == encode::bucket_layout(),
                ok == fitting_bucket(),
                start == old(self).rest(),
                start == encode::enc_u32(count, whole),
                whole == encode::enc_items(
                    rows_of(buckets.pairs(), generations.pairs()),
                    enc,
                    self.rest(),
                ),
                i <= count,
                buckets.pairs().len() == i,
                generations.pairs().len() == i,
                state::names_of(generations.pairs()) == state::names_of(buckets.pairs()),
                rows_fit(rows_of(buckets.pairs(), generations.pairs())),
                unique(enc, ok),
                forall|a: Seq<char>, b: Seq<char>| #[trigger]
                    ordered::name_lt(a, b) ==> !ordered::name_lt(b, a),
                forall|a: Seq<char>| !#[trigger] ordered::name_lt(a, a),
            decreases count - i,
        {
            let ghost old_buckets = buckets.pairs();
            let ghost old_generations = generations.pairs();
            let ghost done = rows_of(buckets.pairs(), generations.pairs());
            let ghost rest = self.rest();
            proof {
                assert forall|all: Seq<BucketRow>, tail: Seq<u8>|
                    all.len() <= u32::MAX && rows_fit(all) && start == encode::enc_u32(
                        all.len() as u32,
                        #[trigger] encode::enc_items(all, enc, tail),
                    ) implies all.len() == count && done == all.take(i as int)
                    && encode::bucket_fits(all[i as int]) && rest == encode::enc_bucket(
                    all[i as int],
                    encode::enc_items(all.skip(i + 1), enc, tail),
                ) by {
                    let items = encode::enc_items(all, enc, tail);
                    u32_is_unique(count, whole, all.len() as u32, items);
                    next_item(whole, done, rest, all, enc, ok, tail);
                    assert(encode::bucket_fits(all[i as int]));
                }
            }
            let name: String = match self.read_name("manifest bucket name is not valid UTF-8") {
                Ok(name) => name,
                Err(error) => {
                    return Err(error);
                },
            };
            let ghost after_name = self.rest();
            let options: BucketOptions = match self.read_bucket_options() {
                Ok(options) => options,
                Err(error) => {
                    proof {
                        assert forall|all: Seq<BucketRow>, tail: Seq<u8>|
                            all.len() <= u32::MAX && rows_sorted(all) && rows_fit(
                                all,
                            ) implies start != encode::enc_u32(
                            all.len() as u32,
                            #[trigger] encode::enc_items(all, enc, tail),
                        ) by {
                            if start == encode::enc_u32(
                                all.len() as u32,
                                encode::enc_items(all, enc, tail),
                            ) {
                                let next = all[i as int];
                                let more = encode::enc_items(all.skip(i + 1), enc, tail);
                                name_is_unique(
                                    name@,
                                    after_name,
                                    next.name,
                                    encode::enc_options(
                                        next.options,
                                        encode::enc_u64(next.generation, more),
                                    ),
                                );
                            }
                        }
                    }
                    return Err(error);
                },
            };
            let ghost after_options = self.rest();
            proof {
                assert forall|all: Seq<BucketRow>, tail: Seq<u8>|
                    all.len() <= u32::MAX && rows_fit(all) && start == encode::enc_u32(
                        all.len() as u32,
                        #[trigger] encode::enc_items(all, enc, tail),
                    ) implies name@ == all[i as int].name && after_options == encode::enc_u64(
                    all[i as int].generation,
                    encode::enc_items(all.skip(i + 1), enc, tail),
                ) by {
                    let next = all[i as int];
                    let more = encode::enc_items(all.skip(i + 1), enc, tail);
                    let counted = encode::enc_u64(next.generation, more);
                    name_is_unique(
                        name@,
                        after_name,
                        next.name,
                        encode::enc_options(next.options, counted),
                    );
                    options_are_unique(options@, after_options, next.options, counted);
                }
            }
            let generation: u64 = match self.read_u64() {
                Ok(generation) => generation,
                Err(error) => {
                    return Err(error);
                },
            };
            if buckets.len() > 0 {
                let in_order: bool = match ordered::order_names(
                    buckets.name_at(buckets.len() - 1),
                    name.as_str(),
                ) {
                    KeyOrder::Less => true,
                    _ => false,
                };
                if !in_order {
                    proof {
                        assert forall|all: Seq<BucketRow>, tail: Seq<u8>|
                            all.len() <= u32::MAX && rows_sorted(all) && rows_fit(
                                all,
                            ) implies start != encode::enc_u32(
                            all.len() as u32,
                            #[trigger] encode::enc_items(all, enc, tail),
                        ) by {
                            if start == encode::enc_u32(
                                all.len() as u32,
                                encode::enc_items(all, enc, tail),
                            ) {
                                assert(done[i - 1] == all[i - 1]);
                                assert(ordered::name_lt(all[i - 1].name, all[i as int].name));
                            }
                        }
                    }
                    return Err(invalid_manifest("manifest buckets are not strictly sorted"));
                }
            }
            let ghost added = BucketRow { name: name@, options: options@, generation };
            proof {
                assert(state::names_of(old_generations).len() == old_generations.len());
                if i > 0 {
                    assert(state::names_of(old_generations)[i - 1] == state::names_of(
                        old_buckets,
                    )[i - 1]);
                }
            }
            generations.push_last(name.clone(), generation);
            buckets.push_last(name, options);
            proof {
                let longer = rows_of(buckets.pairs(), generations.pairs());
                assert(longer =~= done.push(added));
                assert forall|a: int| 0 <= a < longer.len() implies encode::bucket_fits(
                    #[trigger] longer[a],
                ) by {
                    if a < done.len() {
                        assert(encode::bucket_fits(done[a]));
                    }
                }
                assert forall|a: int| 0 <= a < buckets.pairs().len() implies state::names_of(
                    generations.pairs(),
                )[a] == state::names_of(buckets.pairs())[a] by {
                    if a < old_buckets.len() {
                        assert(state::names_of(old_generations)[a] == state::names_of(
                            old_buckets,
                        )[a]);
                    }
                }
                assert(state::names_of(generations.pairs()) =~= state::names_of(buckets.pairs()));
                encode::items_push(done, added, enc, self.rest());
            }
            proof {
                read = read.push(added.name);
            }
            i += 1;
        }
        Ok((buckets, generations))
    }
}

/// The buckets of two lists with the same names.
pub open spec fn rows_of(
    buckets: Seq<(Seq<char>, BucketSettings)>,
    generations: Seq<(Seq<char>, u64)>,
) -> Seq<BucketRow> {
    Seq::new(
        buckets.len(),
        |i: int|
            BucketRow {
                name: buckets[i].0,
                options: buckets[i].1,
                generation: generations[i].1,
            },
    )
}

/// Whether buckets stand in strictly increasing order of their names.
pub open spec fn rows_sorted(rows: Seq<BucketRow>) -> bool {
    forall|i: int, j: int|
        0 <= i < j < rows.len() ==> ordered::name_lt(
            (#[trigger] rows[i]).name,
            (#[trigger] rows[j]).name,
        )
}

/// Whether buckets fit their fields.
pub open spec fn rows_fit(rows: Seq<BucketRow>) -> bool {
    forall|i: int| 0 <= i < rows.len() ==> encode::bucket_fits(#[trigger] rows[i])
}

/// Whether all tables of a list can be read.
pub open spec fn tables_readable(list: Seq<TableSummary>) -> bool {
    forall|i: int| 0 <= i < list.len() ==> table_readable(#[trigger] list[i])
}

/// Whether all buckets with their tables can be read.
pub open spec fn table_buckets_readable(list: Seq<(Seq<char>, Seq<TableSummary>)>) -> bool {
    forall|i: int| 0 <= i < list.len() ==> table_bucket_readable(#[trigger] list[i])
}

/// Whether all checkpoints can be read.
pub open spec fn checkpoints_readable(list: Seq<(Seq<char>, Sequence)>) -> bool {
    forall|i: int| 0 <= i < list.len() ==> checkpoint_readable(#[trigger] list[i])
}

proof fn readable_tables_fit(list: Seq<TableSummary>)
    requires
        tables_readable(list),
    ensures
        all_ok(list, fitting_table()),
{
    let ok = fitting_table();
    assert forall|i: int| 0 <= i < list.len() implies ok(#[trigger] list[i]) by {
        assert(table_readable(list[i]));
    }
}

proof fn readable_table_buckets_fit(list: Seq<(Seq<char>, Seq<TableSummary>)>)
    requires
        table_buckets_readable(list),
    ensures
        all_ok(list, fitting_table_bucket()),
{
    let ok = fitting_table_bucket();
    assert forall|i: int| 0 <= i < list.len() implies ok(#[trigger] list[i]) by {
        assert(table_bucket_readable(list[i]));
    }
}

proof fn readable_checkpoints_fit(list: Seq<(Seq<char>, Sequence)>)
    requires
        checkpoints_readable(list),
    ensures
        all_ok(list, fitting_checkpoint()),
{
    let ok = fitting_checkpoint();
    assert forall|i: int| 0 <= i < list.len() implies ok(#[trigger] list[i]) by {
        assert(checkpoint_readable(list[i]));
    }
}

proof fn table_takes_bytes()
    ensures
        forall|value: TableSummary, tail: Seq<u8>|
            (#[trigger] encode::table_layout()(value, tail)).len() >= tail.len() + 45,
{
    simple_lengths();
    assert forall|value: TableSummary, tail: Seq<u8>|
        (#[trigger] encode::table_layout()(value, tail)).len() >= tail.len() + 45 by {
        assert forall|item: u64, t: Seq<u8>| (#[trigger] encode::id_layout()(item, t)).len()
            >= t.len() + 0 by {}
        assert forall|item: BlobReference, t: Seq<u8>|
            (#[trigger] encode::reference_layout()(item, t)).len() >= t.len() + 0 by {}
        let references = encode::enc_items(value.blob_references, encode::reference_layout(), tail);
        items_take_bytes(value.blob_references, encode::reference_layout(), 0, tail);
        let counted = encode::enc_u32(value.blob_references.len() as u32, references);
        items_take_bytes(value.blob_file_ids, encode::id_layout(), 0, counted);
    }
}

/// Whether blob references can be read, and are increasing by file.
pub open spec fn references_readable(list: Seq<BlobReference>) -> bool {
    &&& references_increasing(list)
    &&& forall|i: int| 0 <= i < list.len() ==> reference_readable(#[trigger] list[i])
}

proof fn key_facts()
    ensures
        forall|a: RecordKey, t: Seq<u8>, b: RecordKey, u: Seq<u8>|
            encode::fits(a.user_key) && encode::fits(b.user_key) && #[trigger] encode::enc_key(a, t)
                == #[trigger] encode::enc_key(b, u) ==> a == b && t == u,
{
    assert forall|a: RecordKey, t: Seq<u8>, b: RecordKey, u: Seq<u8>|
        encode::fits(a.user_key) && encode::fits(b.user_key) && #[trigger] encode::enc_key(a, t)
            == #[trigger] encode::enc_key(b, u) implies a == b && t == u by {
        key_is_unique(a, t, b, u);
    }
}

proof fn policy_facts()
    ensures
        forall|a: bool, t: Seq<u8>, b: bool, u: Seq<u8>| #[trigger]
            encode::enc_bool(a, t) == #[trigger] encode::enc_bool(b, u) ==> a == b && t == u,
        forall|a: CompressionProfile, t: Seq<u8>, b: CompressionProfile, u: Seq<u8>| #[trigger]
            encode::enc_compression(a, t) == #[trigger] encode::enc_compression(b, u) ==> a == b
                && t == u,
        forall|a: FilterPolicy, t: Seq<u8>, b: FilterPolicy, u: Seq<u8>| #[trigger]
            encode::enc_filter(a, t) == #[trigger] encode::enc_filter(b, u) ==> a == b && t == u,
        forall|a: PrefixRule, t: Seq<u8>, b: PrefixRule, u: Seq<u8>|
            encode::prefix_fits(a) && encode::prefix_fits(b) && #[trigger] encode::enc_prefix(a, t)
                == #[trigger] encode::enc_prefix(b, u) ==> a == b && t == u,
        forall|a: PrefixFilterPolicy, t: Seq<u8>, b: PrefixFilterPolicy, u: Seq<u8>| #[trigger]
            encode::enc_prefix_filter(a, t) == #[trigger] encode::enc_prefix_filter(b, u) ==> a == b
                && t == u,
        forall|a: IndexSearchPolicy, t: Seq<u8>, b: IndexSearchPolicy, u: Seq<u8>| #[trigger]
            encode::enc_index_search(a, t) == #[trigger] encode::enc_index_search(b, u) ==> a == b
                && t == u,
        forall|a: BlobLevelMergePolicy, t: Seq<u8>, b: BlobLevelMergePolicy, u: Seq<u8>| #[trigger]
            encode::enc_blob_merge(a, t) == #[trigger] encode::enc_blob_merge(b, u) ==> a == b && t
                == u,
        forall|a: usize, t: Seq<u8>, b: usize, u: Seq<u8>| #[trigger]
            encode::enc_usize(a, t) == #[trigger] encode::enc_usize(b, u) ==> a == b && t == u,
{
    simple_layouts_are_unique();
}

proof fn fields_are_read(manifest: Manifest)
    requires
        laid_out(manifest),
    ensures
        has_layout(manifest),
        rows_sorted(encode::bucket_rows(manifest)),
        rows_fit(encode::bucket_rows(manifest)),
        all_ok(encode::bucket_rows(manifest), fitting_bucket()),
        table_buckets_readable(manifest.tables),
        checkpoints_readable(manifest.checkpoints),
{
    let rows = encode::bucket_rows(manifest);
    assert forall|i: int, j: int| 0 <= i < j < rows.len() implies ordered::name_lt(
        (#[trigger] rows[i]).name,
        (#[trigger] rows[j]).name,
    ) by {
        assert(ordered::name_lt(manifest.buckets[i].0, manifest.buckets[j].0));
    }
}

#[verifier::rlimit(60)]
fn decode_fields(payload: &[u8]) -> (result: Result<ManifestState>)
    ensures
        match result {
            Ok(_) => faults::manifest_in(payload@) is Value,
            Err(error) => faults::manifest_in(payload@).refused_with(error),
        },
        match result {
            Ok(decoded) => {
                &&& decoded.wf()
                &&& has_layout(decoded@)
                &&& table_buckets_readable(decoded@.tables)
                &&& checkpoints_readable(decoded@.checkpoints)
                &&& payload@ == encode::payload_of(decoded@)
            },
            Err(_) => {
                forall|manifest: Manifest|
                    laid_out(manifest) ==> payload@ != #[trigger] encode::payload_of(manifest)
            },
        },
{
    let mut cursor: Cursor<'_> = Cursor::new(payload);
    proof {
        reveal(faults::manifest_in);
        simple_layouts_are_unique();
    }
    let floor: u64 = match cursor.read_u64() {
        Ok(floor) => floor,
        Err(error) => {
            return Err(error);
        },
    };
    let ghost at_buckets = cursor.rest();
    proof {
        assert forall|m: Manifest| laid_out(m) && payload@ == #[trigger] encode::payload_of(
            m,
        ) implies floor == m.wal_replay_floor.0 && at_buckets == encode::enc_u32(
            m.buckets.len() as u32,
            encode::enc_items(
                encode::bucket_rows(m),
                encode::bucket_layout(),
                encode::payload_tables(m),
            ),
        ) by {}
    }
    let (buckets, bucket_generations): (NameMap<BucketOptions>, NameMap<u64>) =
        match cursor.read_buckets() {
        Ok(read) => read,
        Err(error) => {
            proof {
                assert forall|m: Manifest| laid_out(m) implies payload@
                    != #[trigger] encode::payload_of(m) by {
                    if payload@ == encode::payload_of(m) {
                        fields_are_read(m);
                    }
                }
            }
            return Err(error);
        },
    };
    let ghost rows = rows_of(buckets.pairs(), bucket_generations.pairs());
    let ghost at_tables = cursor.rest();
    proof {
        buckets_are_unique();
        assert forall|m: Manifest| laid_out(m) && payload@ == #[trigger] encode::payload_of(
            m,
        ) implies at_tables == encode::payload_tables(m) by {
            fields_are_read(m);
            let other = encode::bucket_rows(m);
            assert(rows.len() as u32 == other.len() as u32);
            items_are_unique(
                rows,
                other,
                encode::bucket_layout(),
                fitting_bucket(),
                at_tables,
                encode::payload_tables(m),
            );
        }
    }
    let tables: NameMap<Vec<TableProperties>> = match cursor.read_tables() {
        Ok(tables) => tables,
        Err(error) => {
            proof {
                assert forall|m: Manifest| laid_out(m) implies payload@
                    != #[trigger] encode::payload_of(m) by {
                    if payload@ == encode::payload_of(m) {
                        fields_are_read(m);
                    }
                }
            }
            return Err(error);
        },
    };
    let ghost at_pending = cursor.rest();
    proof {
        table_buckets_are_unique();
        readable_table_buckets_fit(tables.pairs());
        assert forall|m: Manifest| laid_out(m) && payload@ == #[trigger] encode::payload_of(
            m,
        ) implies at_pending == encode::payload_pending(m) by {
            fields_are_read(m);
            readable_table_buckets_fit(m.tables);
            assert(tables.pairs().len() as u32 == m.tables.len() as u32);
            items_are_unique(
                tables.pairs(),
                m.tables,
                encode::table_bucket_layout(),
                fitting_table_bucket(),
                at_pending,
                encode::payload_pending(m),
            );
        }
    }
    let pending_blob_deletions: BTreeMap<u64, Sequence> =
        match cursor.read_pending_blob_deletions() {
        Ok(pending) => pending,
        Err(error) => {
            return Err(error);
        },
    };
    let ghost at_checkpoints = cursor.rest();
    proof {
        pending_are_unique();
        assert forall|m: Manifest| laid_out(m) && payload@ == #[trigger] encode::payload_of(
            m,
        ) implies at_checkpoints == encode::payload_checkpoints(m) by {
            let pairs = ordered::id_pairs(pending_blob_deletions@);
            assert(pairs.len() as u32 == m.pending_blob_deletions.len() as u32);
            items_are_unique(
                pairs,
                m.pending_blob_deletions,
                encode::pending_layout(),
                any_pending(),
                at_checkpoints,
                encode::payload_checkpoints(m),
            );
        }
    }
    let checkpoints: NameMap<Sequence> = match cursor.read_checkpoints() {
        Ok(checkpoints) => checkpoints,
        Err(error) => {
            proof {
                assert forall|m: Manifest| laid_out(m) implies payload@
                    != #[trigger] encode::payload_of(m) by {
                    if payload@ == encode::payload_of(m) {
                        fields_are_read(m);
                    }
                }
            }
            return Err(error);
        },
    };
    let ghost at_counters = cursor.rest();
    proof {
        checkpoints_are_unique();
        readable_checkpoints_fit(checkpoints.pairs());
        assert forall|m: Manifest| laid_out(m) && payload@ == #[trigger] encode::payload_of(
            m,
        ) implies at_counters == encode::payload_counters(m) by {
            fields_are_read(m);
            readable_checkpoints_fit(m.checkpoints);
            assert(checkpoints.pairs().len() as u32 == m.checkpoints.len() as u32);
            items_are_unique(
                checkpoints.pairs(),
                m.checkpoints,
                encode::checkpoint_layout(),
                fitting_checkpoint(),
                at_counters,
                encode::payload_counters(m),
            );
        }
    }
    let writer_epoch: u64 = match cursor.read_u64() {
        Ok(value) => value,
        Err(error) => {
            return Err(error);
        },
    };
    let next_file_id: u64 = match cursor.read_u64() {
        Ok(value) => value,
        Err(error) => {
            return Err(error);
        },
    };
    let next_bucket_generation: u64 = match cursor.read_u64() {
        Ok(value) => value,
        Err(error) => {
            return Err(error);
        },
    };
    if !cursor.is_finished() {
        return Err(invalid_manifest("trailing payload bytes"));
    }
    proof {
        assert(cursor.rest() =~= Seq::<u8>::empty());
    }
    let decoded = ManifestState {
        wal_replay_floor: Sequence::new(floor),
        buckets,
        bucket_generations,
        tables,
        pending_blob_deletions,
        checkpoints,
        next_file_id,
        next_bucket_generation,
        writer_epoch,
    };
    proof {
        assert(encode::bucket_rows(decoded@) =~= rows);
        assert forall|i: int| 0 <= i < decoded@.buckets.len() implies encode::bucket_fits(
            #[trigger] encode::bucket_rows(decoded@)[i],
        ) by {
            assert(encode::bucket_fits(rows[i]));
        }
        assert forall|i: int| 0 <= i < decoded@.tables.len() implies encode::table_bucket_fits(
            #[trigger] decoded@.tables[i],
        ) by {
            assert(table_bucket_readable(decoded@.tables[i]));
        }
        assert forall|i: int| 0 <= i < decoded@.checkpoints.len() implies encode::name_fits(
            (#[trigger] decoded@.checkpoints[i]).0,
        ) by {
            assert(checkpoint_readable(decoded@.checkpoints[i]));
        }
    }
    Ok(decoded)
}

/// Whether a manifest breaks the rules, and an error says how.
pub open spec fn breaks_rules(manifest: Manifest, error: Error) -> bool {
    &&& !(manifest.files_reserved() && manifest.buckets_sound())
    &&& faults::rules_fault(manifest) matches Some(text) && error.says(ErrorKind::Corruption, text)
}

/// Reads a payload: the inverse of writing one.
///
/// A payload without a fault is that of one manifest, which is refused where it breaks the
/// rules.
pub fn decode_state(payload: &[u8]) -> (result: Result<ManifestState>)
    ensures
        match faults::manifest_in(payload@) {
            Parsed::Fault(kind, text) => {
                &&& result matches Err(error) && error.says(kind, text)
                &&& forall|manifest: Manifest|
                    laid_out(manifest) ==> payload@ != #[trigger] encode::payload_of(manifest)
            },
            Parsed::Value(_, _) => exists|manifest: Manifest|
                {
                    &&& laid_out(manifest)
                    &&& payload@ == #[trigger] encode::payload_of(manifest)
                    &&& match result {
                        Ok(decoded) => decoded@ == manifest,
                        Err(error) => breaks_rules(manifest, error),
                    }
                },
        },
        match result {
            Ok(decoded) => {
                &&& decoded.wf()
                &&& readable(decoded@)
                &&& payload@ == encode::payload_of(decoded@)
                &&& forall|manifest: Manifest|
                    readable(manifest) && payload@ == #[trigger] encode::payload_of(manifest)
                        ==> decoded@ == manifest
            },
            Err(error) => {
                &&& forall|manifest: Manifest|
                    laid_out(manifest) && payload@ == #[trigger] encode::payload_of(manifest)
                        ==> breaks_rules(manifest, error)
            },
        },
{
    let decoded: ManifestState = match decode_fields(payload) {
        Ok(decoded) => decoded,
        Err(error) => {
            return Err(error);
        },
    };
    proof {
        assert forall|m: Manifest| laid_out(m) && payload@ == #[trigger] encode::payload_of(
            m,
        ) implies decoded@ == m by {
            fields_are_read(m);
            payload_determines_manifest(decoded@, m);
        }
        assert(laid_out(decoded@));
        state::faultless_files_are_sound(decoded@);
    }
    match decoded.validate_next_file_id() {
        Ok(_) => {},
        Err(error) => {
            return Err(error);
        },
    }
    match decoded.validate_bucket_generations() {
        Ok(_) => {},
        Err(error) => {
            return Err(error);
        },
    }
    Ok(decoded)
}

/// Writing a manifest and reading it back gives the same manifest: a payload that
/// `manifest` was written to can only be read as `manifest`.
pub proof fn reading_inverts_writing(manifest: Manifest, payload: Seq<u8>, read: Manifest)
    requires
        readable(manifest),
        payload == encode::payload_of(manifest),
        readable(read),
        payload == encode::payload_of(read),
    ensures
        read == manifest,
{
    fields_are_read(manifest);
    fields_are_read(read);
    payload_determines_manifest(read, manifest);
}

/// The number in four bytes of a header.
pub open spec fn u32_at(bytes: Seq<u8>, offset: int) -> u32 {
    bytes::spec_u32_from_le_bytes(bytes.subrange(offset, offset + 4))
}

/// The number in two bytes of a header.
pub open spec fn u16_at(bytes: Seq<u8>, offset: int) -> u16 {
    bytes::spec_u16_from_le_bytes(bytes.subrange(offset, offset + 2))
}

fn read_u32_at(source: &[u8], offset: usize) -> (value: u32)
    requires
        offset + 4 <= source@.len(),
    ensures
        value == u32_at(source@, offset as int),
{
    assert(offset + 4 <= source.len());
    bytes::u32_from_le_bytes(slice_subrange(source, offset, offset + 4))
}

fn read_u16_at(source: &[u8], offset: usize) -> (value: u16)
    requires
        offset + 2 <= source@.len(),
    ensures
        value == u16_at(source@, offset as int),
{
    assert(offset + 2 <= source.len());
    bytes::u16_from_le_bytes(slice_subrange(source, offset, offset + 2))
}

/// The payload behind a header.
pub open spec fn payload_in(bytes: Seq<u8>) -> Seq<u8> {
    bytes.skip(14)
}

/// What is wrong with a header and the bytes behind it, if anything.
pub open spec fn header_fault(bytes: Seq<u8>) -> Option<(ErrorKind, Seq<char>)> {
    if bytes.len() < 14 {
        Some((ErrorKind::InvalidFormat, invalid_text("short header"@)))
    } else if u32_at(bytes, 6) > limits::MAX_MANIFEST_PAYLOAD_BYTES {
        Some(
            (
                ErrorKind::InvalidFormat,
                limits::exceeds_text(
                    "manifest payload length"@,
                    u32_at(bytes, 6) as nat,
                    limits::MAX_MANIFEST_PAYLOAD_BYTES as nat,
                ),
            ),
        )
    } else if u32_at(bytes, 0) != encode::MANIFEST_MAGIC {
        Some((ErrorKind::Corruption, "manifest magic mismatch"@))
    } else if u16_at(bytes, 4) != encode::MANIFEST_VERSION {
        Some(
            (
                ErrorKind::UnsupportedFormat,
                "unsupported manifest version "@ + text::decimal(u16_at(bytes, 4) as nat),
            ),
        )
    } else if bytes.len() != 14 + u32_at(bytes, 6) {
        Some((ErrorKind::Corruption, "manifest length mismatch"@))
    } else if checksum::checksum_of(payload_in(bytes)) != u32_at(bytes, 10) {
        Some((ErrorKind::Corruption, "manifest checksum mismatch"@))
    } else {
        None
    }
}

/// The header of a framed payload has no fault, and its payload is that payload.
pub proof fn framed_payload_is_found(payload: Seq<u8>)
    requires
        payload.len() <= limits::MAX_MANIFEST_PAYLOAD_BYTES,
    ensures
        header_fault(encode::framed(payload)) is None,
        payload_in(encode::framed(payload)) == payload,
{
    bytes::lemma_auto_spec_u32_to_from_le_bytes();
    bytes::lemma_auto_spec_u16_to_from_le_bytes();
    let whole = encode::framed(payload);
    let magic = bytes::spec_u32_to_le_bytes(encode::MANIFEST_MAGIC);
    let version = bytes::spec_u16_to_le_bytes(encode::MANIFEST_VERSION);
    let len = bytes::spec_u32_to_le_bytes(payload.len() as u32);
    let sum = bytes::spec_u32_to_le_bytes(checksum::checksum_of(payload));
    assert(whole.subrange(0, 4) =~= magic);
    assert(whole.subrange(4, 6) =~= version);
    assert(whole.subrange(6, 10) =~= len);
    assert(whole.subrange(10, 14) =~= sum);
    assert(payload_in(whole) =~= payload);
}

proof fn faultless_bytes_are_framed(whole: Seq<u8>)
    requires
        header_fault(whole) is None,
    ensures
        whole == encode::framed(payload_in(whole)),
        payload_in(whole).len() <= limits::MAX_MANIFEST_PAYLOAD_BYTES,
{
    bytes::lemma_auto_spec_u32_to_from_le_bytes();
    bytes::lemma_auto_spec_u16_to_from_le_bytes();
    let payload = payload_in(whole);
    assert(bytes::spec_u32_to_le_bytes(encode::MANIFEST_MAGIC) == whole.subrange(0, 4));
    assert(bytes::spec_u16_to_le_bytes(encode::MANIFEST_VERSION) == whole.subrange(4, 6));
    assert(payload.len() as u32 == u32_at(whole, 6));
    assert(bytes::spec_u32_to_le_bytes(payload.len() as u32) == whole.subrange(6, 10));
    assert(bytes::spec_u32_to_le_bytes(checksum::checksum_of(payload)) == whole.subrange(10, 14));
    assert(whole =~= encode::framed(payload));
}

/// Whether an error says what keeps bytes from being read as a manifest with its header.
pub open spec fn unreadable(bytes: Seq<u8>, error: Error) -> bool {
    match header_fault(bytes) {
        Some((kind, text)) => error.says(kind, text),
        None => match faults::manifest_in(payload_in(bytes)) {
            Parsed::Fault(kind, text) => error.says(kind, text),
            Parsed::Value(_, _) => exists|manifest: Manifest|
                {
                    &&& laid_out(manifest)
                    &&& payload_in(bytes) == #[trigger] encode::payload_of(manifest)
                    &&& breaks_rules(manifest, error)
                },
        },
    }
}

/// Reads a manifest with its header.
pub fn decode_manifest(source: &[u8]) -> (result: Result<ManifestState>)
    ensures
        header_fault(source@) is Some || faults::manifest_in(payload_in(source@)) is Fault
            ==> result is Err,
        match result {
            Ok(decoded) => {
                &&& decoded.wf()
                &&& readable(decoded@)
                &&& encode::can_be_published(decoded@)
                &&& source@ == encode::framed(encode::payload_of(decoded@))
                &&& forall|manifest: Manifest|
                    readable(manifest) && encode::can_be_published(manifest) && source@
                        == encode::framed(#[trigger] encode::payload_of(manifest)) ==> decoded@
                        == manifest
            },
            Err(error) => {
                &&& unreadable(source@, error)
                &&& forall|manifest: Manifest|
                    readable(manifest) && encode::can_be_published(manifest) ==> source@
                        != encode::framed(#[trigger] encode::payload_of(manifest))
                &&& header_fault(source@) is None ==> forall|manifest: Manifest|
                    laid_out(manifest) && payload_in(source@) == #[trigger] encode::payload_of(
                        manifest,
                    ) ==> breaks_rules(manifest, error)
            },
        },
{
    proof {
        assert forall|m: Manifest|
            readable(m) && encode::can_be_published(m) && source@ == encode::framed(
                #[trigger] encode::payload_of(m),
            ) implies header_fault(source@) is None && payload_in(source@) == encode::payload_of(
            m,
        ) by {
            framed_payload_is_found(encode::payload_of(m));
        }
    }
    if source.len() < encode::HEADER_LEN {
        return Err(invalid_manifest("short header"));
    }
    let magic: u32 = read_u32_at(source, 0);
    let version: u16 = read_u16_at(source, 4);
    let payload_len: usize = read_u32_at(source, 6) as usize;
    match limits::ensure_invalid_format_len(
        payload_len,
        limits::MAX_MANIFEST_PAYLOAD_BYTES,
        "manifest payload length",
    ) {
        Ok(_) => {},
        Err(error) => {
            return Err(error);
        },
    }
    let payload_checksum: u32 = read_u32_at(source, 10);
    if magic != encode::MANIFEST_MAGIC {
        return Err(Error::corruption("manifest magic mismatch"));
    }
    if version != encode::MANIFEST_VERSION {
        let mut message: String = "unsupported manifest version ".to_owned();
        text::push_decimal(&mut message, version as u64);
        return Err(Error::UnsupportedFormat { message });
    }
    if source.len() != encode::HEADER_LEN + payload_len {
        return Err(Error::corruption("manifest length mismatch"));
    }
    let payload: &[u8] = slice_subrange(source, encode::HEADER_LEN, source.len());
    proof {
        assert(payload@ =~= payload_in(source@));
    }
    if checksum::crc32c(payload) != payload_checksum {
        return Err(Error::corruption("manifest checksum mismatch"));
    }
    proof {
        faultless_bytes_are_framed(source@);
    }
    decode_state(payload)
}

proof fn different_bytes_read_differently(a: Seq<u8>, b: Seq<u8>, offset: int, i: int)
    requires
        a.len() == b.len(),
        0 <= offset <= i < offset + 4 <= a.len(),
        a[i] != b[i],
    ensures
        u32_at(a, offset) != u32_at(b, offset),
{
    bytes::lemma_auto_spec_u32_to_from_le_bytes();
    let left = a.subrange(offset, offset + 4);
    let right = b.subrange(offset, offset + 4);
    assert(left[i - offset] != right[i - offset]);
    assert(bytes::spec_u32_to_le_bytes(bytes::spec_u32_from_le_bytes(left)) == left);
    assert(bytes::spec_u32_to_le_bytes(bytes::spec_u32_from_le_bytes(right)) == right);
}

/// Damage to one byte of a manifest is always noticed, wherever it is: in the magic number, the
/// version, the length, the checksum or the payload.
pub proof fn one_damaged_byte_is_noticed(payload: Seq<u8>, damaged: Seq<u8>, i: int)
    requires
        payload.len() <= limits::MAX_MANIFEST_PAYLOAD_BYTES,
        damaged.len() == encode::framed(payload).len(),
        0 <= i < damaged.len(),
        damaged[i] != encode::framed(payload)[i],
        forall|j: int|
            0 <= j < damaged.len() && j != i ==> damaged[j] == encode::framed(payload)[j],
    ensures
        header_fault(damaged) is Some,
{
    let whole = encode::framed(payload);
    framed_payload_is_found(payload);
    bytes::lemma_auto_spec_u16_to_from_le_bytes();
    if i < 4 {
        different_bytes_read_differently(damaged, whole, 0, i);
    } else if i < 6 {
        let left = damaged.subrange(4, 6);
        let right = whole.subrange(4, 6);
        assert(left[i - 4] != right[i - 4]);
    } else if i < 10 {
        different_bytes_read_differently(damaged, whole, 6, i);
    } else if i < 14 {
        different_bytes_read_differently(damaged, whole, 10, i);
        assert(payload_in(damaged) =~= payload_in(whole));
    } else {
        assert(damaged.subrange(10, 14) =~= whole.subrange(10, 14));
        checksum::one_damaged_byte_changes_the_checksum(
            payload_in(damaged),
            payload_in(whole),
            i - 14,
        );
    }
}

/// A manifest that was cut short, or that has something behind it, is noticed.
pub proof fn wrong_length_is_noticed(payload: Seq<u8>, damaged: Seq<u8>)
    requires
        payload.len() <= limits::MAX_MANIFEST_PAYLOAD_BYTES,
        damaged.len() != encode::framed(payload).len(),
        damaged.len() >= 14 ==> damaged.take(14) == encode::framed(payload).take(14),
    ensures
        header_fault(damaged) is Some,
{
    let whole = encode::framed(payload);
    framed_payload_is_found(payload);
    if damaged.len() >= 14 {
        assert(damaged.take(14).subrange(6, 10) =~= damaged.subrange(6, 10));
        assert(whole.take(14).subrange(6, 10) =~= whole.subrange(6, 10));
    }
}

/// A manifest that can be written has a high-water mark above every file that it uses, and tables
/// and generations for its buckets and no others.
pub proof fn written_manifests_are_sound(manifest: Manifest, id: u64, bucket: int)
    requires
        encode::can_be_published(manifest),
    ensures
        manifest.uses_file(id) ==> id < manifest.next_file_id,
        manifest.tables.len() == manifest.buckets.len(),
        manifest.bucket_generations.len() == manifest.buckets.len(),
        0 <= bucket < manifest.buckets.len() ==> manifest.tables[bucket].0
            == manifest.buckets[bucket].0 && manifest.bucket_generations[bucket].0
            == manifest.buckets[bucket].0,
        encode::payload_of(manifest).len() <= limits::MAX_MANIFEST_PAYLOAD_BYTES,
{
    let names = state::names_of(manifest.buckets);
    assert(state::names_of(manifest.tables).len() == names.len());
    assert(state::names_of(manifest.bucket_generations).len() == names.len());
    if 0 <= bucket < manifest.buckets.len() {
        assert(state::names_of(manifest.tables)[bucket] == names[bucket]);
        assert(state::names_of(manifest.bucket_generations)[bucket] == names[bucket]);
    }
}

} // verus!
