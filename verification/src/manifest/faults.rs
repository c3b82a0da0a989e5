//! What keeps bytes from being read as a manifest.
use vstd::bytes;
use vstd::prelude::*;
use vstd::utf8::*;

use crate::error::{Error, ErrorKind};
use crate::internal_key::{RecordKey, ValueKind};
use crate::manifest::decode;
use crate::manifest::encode;
use crate::manifest::state::Manifest;
use crate::ordered;
use crate::table::BlobReference;
use crate::text;
use crate::types::Sequence;

verus! {

/// What reading from the front of some bytes gives: a value and the bytes behind it, or the
/// kind and the text of an error.
pub enum Parsed<T> {
    /// A value, and the bytes that are still to be read.
    Value(T, Seq<u8>),
    /// Why there is none.
    Fault(ErrorKind, Seq<char>),
}

impl<T> Parsed<T> {
    /// Reads one more field behind this one.
    pub open spec fn next<U>(self, field: spec_fn(Seq<u8>) -> Parsed<U>) -> Parsed<U> {
        match self {
            Parsed::Value(_, rest) => field(rest),
            Parsed::Fault(kind, text) => Parsed::Fault(kind, text),
        }
    }

    /// Whether an error says why there is no value.
    pub open spec fn refused_with(self, error: Error) -> bool {
        match self {
            Parsed::Value(_, _) => false,
            Parsed::Fault(kind, text) => error.says(kind, text),
        }
    }

    /// Whether there is a value in front of these bytes.
    pub open spec fn leaves(self, rest: Seq<u8>) -> bool {
        match self {
            Parsed::Value(_, left) => left == rest,
            Parsed::Fault(_, _) => false,
        }
    }
}

/// A layout error.
pub open spec fn invalid<T>(message: Seq<char>) -> Parsed<T> {
    Parsed::Fault(ErrorKind::InvalidFormat, decode::invalid_text(message))
}

/// A byte.
#[verifier::opaque]
pub open spec fn u8_in(bytes: Seq<u8>) -> Parsed<u8> {
    if bytes.len() == 0 {
        invalid("short u8"@)
    } else {
        Parsed::Value(bytes[0], bytes.skip(1))
    }
}

/// A 32-bit number.
#[verifier::opaque]
pub open spec fn u32_in(bytes: Seq<u8>) -> Parsed<u32> {
    if bytes.len() < 4 {
        invalid("short u32"@)
    } else {
        Parsed::Value(bytes::spec_u32_from_le_bytes(bytes.take(4)), bytes.skip(4))
    }
}

/// A 64-bit number.
#[verifier::opaque]
pub open spec fn u64_in(bytes: Seq<u8>) -> Parsed<u64> {
    if bytes.len() < 8 {
        invalid("short u64"@)
    } else {
        Parsed::Value(bytes::spec_u64_from_le_bytes(bytes.take(8)), bytes.skip(8))
    }
}

/// A length or size.
#[verifier::opaque]
pub open spec fn usize_in(bytes: Seq<u8>) -> Parsed<u64> {
    match u64_in(bytes) {
        Parsed::Value(value, rest) => if value > usize::MAX {
            Parsed::Fault(
                ErrorKind::UnsupportedFormat,
                "manifest usize field does not fit this platform"@,
            )
        } else {
            Parsed::Value(value, rest)
        },
        fault => fault,
    }
}

/// Bytes behind their length. `bytes` are the last ones of a payload of `total` bytes, in which
/// the position behind the field must be a number that a machine can hold.
#[verifier::opaque]
pub open spec fn bytes_in(bytes: Seq<u8>, total: nat) -> Parsed<Seq<u8>> {
    match u32_in(bytes) {
        Parsed::Value(len, rest) => if total - rest.len() + len > usize::MAX {
            Parsed::Fault(
                ErrorKind::InvalidFormat,
                "manifest byte field length"@ + " overflows"@,
            )
        } else if rest.len() < len {
            invalid("short bytes"@)
        } else {
            Parsed::Value(rest.take(len as int), rest.skip(len as int))
        },
        Parsed::Fault(kind, text) => Parsed::Fault(kind, text),
    }
}

/// A name; `message` is the error for bytes that are not text.
#[verifier::opaque]
pub open spec fn name_in(bytes: Seq<u8>, total: nat, message: Seq<char>) -> Parsed<Seq<char>> {
    match bytes_in(bytes, total) {
        Parsed::Value(name, rest) => if valid_utf8(name) {
            Parsed::Value(decode_utf8(name), rest)
        } else {
            Parsed::Fault(ErrorKind::InvalidFormat, message)
        },
        Parsed::Fault(kind, text) => Parsed::Fault(kind, text),
    }
}

/// A byte that is one of the known tags; the error for another one ends in its number.
pub open spec fn tag_in(
    bytes: Seq<u8>,
    known: spec_fn(u8) -> bool,
    kind: ErrorKind,
    message: Seq<char>,
) -> Parsed<u8> {
    match u8_in(bytes) {
        Parsed::Value(tag, rest) => if known(tag) {
            Parsed::Value(tag, rest)
        } else {
            Parsed::Fault(kind, message + text::decimal(tag as nat))
        },
        fault => fault,
    }
}

/// A flag.
#[verifier::opaque]
pub open spec fn bool_in(bytes: Seq<u8>) -> Parsed<u8> {
    tag_in(bytes, |tag: u8| tag <= 1, ErrorKind::InvalidFormat, "invalid manifest bool "@)
}

/// A compression profile.
#[verifier::opaque]
pub open spec fn compression_in(bytes: Seq<u8>) -> Parsed<u8> {
    tag_in(
        bytes,
        |tag: u8| tag <= 1,
        ErrorKind::InvalidFormat,
        "unknown manifest compression profile "@,
    )
}

/// A tag that a byte follows where it is 1.
pub open spec fn optional_byte(tag: Parsed<u8>) -> Parsed<u8> {
    match tag {
        Parsed::Value(1, rest) => u8_in(rest),
        other => other,
    }
}

/// A filter policy.
#[verifier::opaque]
pub open spec fn filter_in(bytes: Seq<u8>) -> Parsed<u8> {
    optional_byte(
        tag_in(
            bytes,
            |tag: u8| tag <= 1,
            ErrorKind::InvalidFormat,
            "unknown manifest filter policy "@,
        ),
    )
}

/// A prefix filter policy.
#[verifier::opaque]
pub open spec fn prefix_filter_in(bytes: Seq<u8>) -> Parsed<u8> {
    optional_byte(
        tag_in(
            bytes,
            |tag: u8| tag <= 1,
            ErrorKind::InvalidFormat,
            "unknown manifest prefix filter policy "@,
        ),
    )
}

/// A prefix extractor.
#[verifier::opaque]
pub open spec fn prefix_in(bytes: Seq<u8>, total: nat) -> Parsed<()> {
    let tag = tag_in(
        bytes,
        |tag: u8| tag <= 3,
        ErrorKind::InvalidFormat,
        "unknown manifest prefix extractor "@,
    );
    match tag {
        Parsed::Value(0, rest) => usize_in(rest).next(|rest: Seq<u8>| Parsed::Value((), rest)),
        Parsed::Value(1, rest) => u8_in(rest).next(|rest: Seq<u8>| Parsed::Value((), rest)),
        Parsed::Value(2, rest) => name_in(
            rest,
            total,
            "manifest custom prefix extractor is not UTF-8"@,
        ).next(|rest: Seq<u8>| Parsed::Value((), rest)),
        Parsed::Value(_, rest) => Parsed::Value((), rest),
        Parsed::Fault(kind, text) => Parsed::Fault(kind, text),
    }
}

/// An index search policy.
#[verifier::opaque]
pub open spec fn index_search_in(bytes: Seq<u8>) -> Parsed<u8> {
    tag_in(
        bytes,
        |tag: u8| tag == 0 || tag == 1 || tag == 4,
        ErrorKind::InvalidFormat,
        "unknown manifest index search policy "@,
    )
}

/// A blob merge policy.
#[verifier::opaque]
pub open spec fn blob_merge_in(bytes: Seq<u8>) -> Parsed<u8> {
    tag_in(
        bytes,
        |tag: u8| tag <= 2,
        ErrorKind::InvalidFormat,
        "unknown manifest blob level merge policy "@,
    )
}

/// A filter depth curve.
#[verifier::opaque]
pub open spec fn curve_in(bytes: Seq<u8>) -> Parsed<u8> {
    let tag = tag_in(
        bytes,
        |tag: u8| tag <= 3,
        ErrorKind::Corruption,
        "unknown filter depth curve tag "@,
    );
    match tag {
        Parsed::Value(number, rest) => if number >= 2 {
            u8_in(rest).next(|rest: Seq<u8>| u8_in(rest))
        } else {
            tag
        },
        fault => fault,
    }
}

/// A codec.
#[verifier::opaque]
pub open spec fn codec_in(bytes: Seq<u8>) -> Parsed<u8> {
    tag_in(
        bytes,
        |tag: u8| tag <= 1,
        ErrorKind::UnsupportedFormat,
        "unknown manifest table codec "@,
    )
}

/// What a record does.
#[verifier::opaque]
pub open spec fn kind_in(bytes: Seq<u8>) -> Parsed<u8> {
    tag_in(
        bytes,
        |tag: u8| 1 <= tag <= 3,
        ErrorKind::InvalidFormat,
        "unknown manifest internal value kind "@,
    )
}

/// The key of a record.
#[verifier::opaque]
pub open spec fn key_in(bytes: Seq<u8>, total: nat) -> Parsed<RecordKey> {
    let user_key = bytes_in(bytes, total);
    let sequence = user_key.next(|rest: Seq<u8>| u64_in(rest));
    let kind = sequence.next(|rest: Seq<u8>| kind_in(rest));
    match kind.next(|rest: Seq<u8>| u32_in(rest)) {
        Parsed::Value(batch_index, rest) => Parsed::Value(
            RecordKey {
                user_key: user_key->Value_0,
                sequence: Sequence(sequence->Value_0),
                kind: if kind->Value_0 == 1 {
                    ValueKind::Put
                } else if kind->Value_0 == 2 {
                    ValueKind::PointDelete
                } else {
                    ValueKind::RangeDelete
                },
                batch_index,
            },
            rest,
        ),
        Parsed::Fault(kind, text) => Parsed::Fault(kind, text),
    }
}

/// A blob reference to a file, behind the identifier of the file.
#[verifier::opaque]
pub open spec fn reference_in(bytes: Seq<u8>, total: nat, file_id: u64) -> Parsed<BlobReference> {
    let referenced = u64_in(bytes);
    let records = referenced.next(|rest: Seq<u8>| u64_in(rest));
    let smallest = records.next(|rest: Seq<u8>| key_in(rest, total));
    match smallest.next(|rest: Seq<u8>| key_in(rest, total)) {
        Parsed::Value(largest, rest) => Parsed::Value(
            BlobReference {
                file_id,
                referenced_bytes: referenced->Value_0,
                referenced_record_count: records->Value_0,
                smallest_internal_key: smallest->Value_0,
                largest_internal_key: largest,
            },
            rest,
        ),
        Parsed::Fault(kind, text) => Parsed::Fault(kind, text),
    }
}

/// The options of a bucket.
#[verifier::opaque]
pub open spec fn options_in(bytes: Seq<u8>, total: nat) -> Parsed<u8> {
    bool_in(bytes).next(|rest: Seq<u8>| compression_in(rest)).next(
        |rest: Seq<u8>| usize_in(rest),
    ).next(|rest: Seq<u8>| filter_in(rest)).next(|rest: Seq<u8>| prefix_in(rest, total)).next(
        |rest: Seq<u8>| prefix_filter_in(rest),
    ).next(|rest: Seq<u8>| index_search_in(rest)).next(|rest: Seq<u8>| usize_in(rest)).next(
        |rest: Seq<u8>| blob_merge_in(rest),
    ).next(|rest: Seq<u8>| curve_in(rest))
}

/// `count` more items behind those that were `read`. An item is read in view of those before
/// it.
pub open spec fn items_in<T>(
    bytes: Seq<u8>,
    count: nat,
    read: Seq<T>,
    item: spec_fn(Seq<T>, Seq<u8>) -> Parsed<T>,
) -> Parsed<Seq<T>>
    decreases count,
{
    if count == 0 {
        Parsed::Value(read, bytes)
    } else {
        match item(read, bytes) {
            Parsed::Value(value, rest) => items_in(
                rest,
                (count - 1) as nat,
                read.push(value),
                item,
            ),
            Parsed::Fault(kind, text) => Parsed::Fault(kind, text),
        }
    }
}

/// A list behind the number of its items, each of which takes `least` bytes or more.
pub open spec fn list_in<T>(
    bytes: Seq<u8>,
    least: nat,
    too_many: Seq<char>,
    item: spec_fn(Seq<T>, Seq<u8>) -> Parsed<T>,
) -> Parsed<Seq<T>> {
    match u32_in(bytes) {
        Parsed::Value(count, rest) => if count > rest.len() / least {
            invalid(too_many)
        } else {
            items_in(rest, count as nat, Seq::empty(), item)
        },
        Parsed::Fault(kind, text) => Parsed::Fault(kind, text),
    }
}

/// A blob file identifier, above the one before it.
pub open spec fn id_item() -> spec_fn(Seq<u64>, Seq<u8>) -> Parsed<u64> {
    |read: Seq<u64>, bytes: Seq<u8>|
        match u64_in(bytes) {
            Parsed::Value(id, rest) => if read.len() > 0 && read.last() >= id {
                invalid("blob file ids are not sorted"@)
            } else {
                Parsed::Value(id, rest)
            },
            fault => fault,
        }
}

/// The blob file identifiers of a table.
#[verifier::opaque]
pub open spec fn ids_in(bytes: Seq<u8>) -> Parsed<Seq<u64>> {
    list_in(bytes, 8, "blob file id count exceeds payload bytes"@, id_item())
}

/// A blob reference to a file above the one before it.
pub open spec fn reference_item(total: nat) -> spec_fn(Seq<BlobReference>, Seq<u8>) -> Parsed<
    BlobReference,
> {
    |read: Seq<BlobReference>, bytes: Seq<u8>|
        match u64_in(bytes) {
            Parsed::Value(file_id, rest) => if read.len() > 0 && read.last().file_id >= file_id {
                invalid("blob references are not sorted"@)
            } else {
                match reference_in(rest, total, file_id) {
                    Parsed::Value(value, rest) => if value.largest_internal_key.lt(
                        value.smallest_internal_key,
                    ) {
                        invalid("blob reference key bounds are invalid"@)
                    } else {
                        Parsed::Value(value, rest)
                    },
                    fault => fault,
                }
            },
            Parsed::Fault(kind, text) => Parsed::Fault(kind, text),
        }
}

/// The blob references of a table.
#[verifier::opaque]
pub open spec fn references_in(bytes: Seq<u8>, total: nat) -> Parsed<Seq<BlobReference>> {
    list_in(bytes, 58, "blob reference count exceeds payload bytes"@, reference_item(total))
}

/// The properties of a table.
#[verifier::opaque]
pub open spec fn table_in(bytes: Seq<u8>, total: nat) -> Parsed<Seq<BlobReference>> {
    u64_in(bytes).next(|rest: Seq<u8>| u32_in(rest)).next(
        |rest: Seq<u8>| bytes_in(rest, total),
    ).next(|rest: Seq<u8>| bytes_in(rest, total)).next(|rest: Seq<u8>| u64_in(rest)).next(
        |rest: Seq<u8>| u64_in(rest),
    ).next(|rest: Seq<u8>| codec_in(rest)).next(|rest: Seq<u8>| ids_in(rest)).next(
        |rest: Seq<u8>| references_in(rest, total),
    )
}

/// A table of a bucket.
pub open spec fn table_item(total: nat) -> spec_fn(Seq<()>, Seq<u8>) -> Parsed<()> {
    |read: Seq<()>, bytes: Seq<u8>|
        table_in(bytes, total).next(|rest: Seq<u8>| Parsed::Value((), rest))
}

/// The tables of a bucket.
#[verifier::opaque]
pub open spec fn tables_of_bucket_in(bytes: Seq<u8>, total: nat, count: u32) -> Parsed<Seq<()>> {
    if count > bytes.len() / encode::MIN_TABLE_PROPERTY_BYTES as nat {
        invalid("table count exceeds payload bytes"@)
    } else {
        items_in(bytes, count as nat, Seq::empty(), table_item(total))
    }
}

/// A bucket with its tables, behind the bucket before it.
pub open spec fn table_bucket_item(total: nat) -> spec_fn(Seq<Seq<char>>, Seq<u8>) -> Parsed<
    Seq<char>,
> {
    |read: Seq<Seq<char>>, bytes: Seq<u8>|
        match name_in(bytes, total, "manifest table bucket is not valid UTF-8"@) {
            Parsed::Value(name, rest) => if read.len() > 0 && !ordered::name_lt(
                read.last(),
                name,
            ) {
                invalid("manifest table buckets are not strictly sorted"@)
            } else {
                match u32_in(rest) {
                    Parsed::Value(count, rest) => tables_of_bucket_in(rest, total, count).next(
                        |rest: Seq<u8>| Parsed::Value(name, rest),
                    ),
                    Parsed::Fault(kind, text) => Parsed::Fault(kind, text),
                }
            },
            fault => fault,
        }
}

/// The tables of every bucket.
#[verifier::opaque]
pub open spec fn tables_in(bytes: Seq<u8>, total: nat) -> Parsed<Seq<Seq<char>>> {
    match u32_in(bytes) {
        Parsed::Value(count, rest) => items_in(
            rest,
            count as nat,
            Seq::empty(),
            table_bucket_item(total),
        ),
        Parsed::Fault(kind, text) => Parsed::Fault(kind, text),
    }
}

/// A pending deletion of a file above the one before it.
pub open spec fn pending_item() -> spec_fn(Seq<u64>, Seq<u8>) -> Parsed<u64> {
    |read: Seq<u64>, bytes: Seq<u8>|
        match u64_in(bytes) {
            Parsed::Value(id, rest) => if read.len() > 0 && read.last() >= id {
                invalid("pending blob deletions are not sorted"@)
            } else {
                u64_in(rest).next(|rest: Seq<u8>| Parsed::Value(id, rest))
            },
            fault => fault,
        }
}

/// The pending deletions.
#[verifier::opaque]
pub open spec fn pending_in(bytes: Seq<u8>) -> Parsed<Seq<u64>> {
    list_in(bytes, 16, "pending blob deletion count exceeds payload bytes"@, pending_item())
}

/// A checkpoint with a name behind the one before it.
pub open spec fn checkpoint_item(total: nat) -> spec_fn(Seq<Seq<char>>, Seq<u8>) -> Parsed<
    Seq<char>,
> {
    |read: Seq<Seq<char>>, bytes: Seq<u8>|
        match name_in(bytes, total, "manifest checkpoint name is not valid UTF-8"@) {
            Parsed::Value(name, rest) => if name.len() == 0 {
                invalid("checkpoint name is empty"@)
            } else if read.len() > 0 && !ordered::name_lt(read.last(), name) {
                invalid("checkpoints are not sorted"@)
            } else {
                u64_in(rest).next(|rest: Seq<u8>| Parsed::Value(name, rest))
            },
            fault => fault,
        }
}

/// The checkpoints.
#[verifier::opaque]
pub open spec fn checkpoints_in(bytes: Seq<u8>, total: nat) -> Parsed<Seq<Seq<char>>> {
    list_in(bytes, 12, "checkpoint count exceeds payload bytes"@, checkpoint_item(total))
}

/// A bucket with a name behind the one before it.
pub open spec fn bucket_item(total: nat) -> spec_fn(Seq<Seq<char>>, Seq<u8>) -> Parsed<Seq<char>> {
    |read: Seq<Seq<char>>, bytes: Seq<u8>|
        match name_in(bytes, total, "manifest bucket name is not valid UTF-8"@) {
            Parsed::Value(name, rest) => options_in(rest, total).next(
                |rest: Seq<u8>| u64_in(rest),
            ).next(
                |rest: Seq<u8>|
                    if read.len() > 0 && !ordered::name_lt(read.last(), name) {
                        invalid("manifest buckets are not strictly sorted"@)
                    } else {
                        Parsed::Value(name, rest)
                    },
            ),
            fault => fault,
        }
}

/// The buckets.
#[verifier::opaque]
pub open spec fn buckets_in(bytes: Seq<u8>, total: nat) -> Parsed<Seq<Seq<char>>> {
    match u32_in(bytes) {
        Parsed::Value(count, rest) => items_in(
            rest,
            count as nat,
            Seq::empty(),
            bucket_item(total),
        ),
        Parsed::Fault(kind, text) => Parsed::Fault(kind, text),
    }
}

/// A whole payload.
#[verifier::opaque]
pub open spec fn manifest_in(payload: Seq<u8>) -> Parsed<()> {
    let total = payload.len();
    u64_in(payload).next(|rest: Seq<u8>| buckets_in(rest, total)).next(
        |rest: Seq<u8>| tables_in(rest, total),
    ).next(|rest: Seq<u8>| pending_in(rest)).next(|rest: Seq<u8>| checkpoints_in(rest, total)).next(
        |rest: Seq<u8>| u64_in(rest),
    ).next(|rest: Seq<u8>| u64_in(rest)).next(|rest: Seq<u8>| u64_in(rest)).next(
        |rest: Seq<u8>|
            if rest.len() > 0 {
                invalid("trailing payload bytes"@)
            } else {
                Parsed::Value((), rest)
            },
    )
}

/// What is wrong with the rules of a manifest that was read.
pub open spec fn rules_fault(manifest: Manifest) -> Option<Seq<char>> {
    match manifest.file_id_fault() {
        Some(text) => Some(text),
        None => manifest.buckets_fault(),
    }
}

/// What is written as a field is what is read as one, with the bytes behind it left.
pub proof fn written_fields_are_read(tail: Seq<u8>, total: nat)
    requires
        tail.len() <= total <= usize::MAX,
    ensures
        forall|value: u8|
            #[trigger] u8_in(encode::enc_u8(value, tail)) == Parsed::Value(value, tail),
        forall|value: u32|
            #[trigger] u32_in(encode::enc_u32(value, tail)) == Parsed::Value(value, tail),
        forall|value: u64|
            #[trigger] u64_in(encode::enc_u64(value, tail)) == Parsed::Value(value, tail),
        forall|value: Seq<u8>|
            encode::fits(value) ==> #[trigger] bytes_in(encode::enc_bytes(value, tail), total)
                == Parsed::Value(value, tail),
        forall|value: Seq<char>, message: Seq<char>|
            encode::name_fits(value) ==> #[trigger] name_in(
                encode::enc_name(value, tail),
                total,
                message,
            ) == Parsed::Value(value, tail),
{
    reveal(u8_in);
    reveal(u32_in);
    reveal(u64_in);
    reveal(bytes_in);
    reveal(name_in);
    bytes::lemma_auto_spec_u32_to_from_le_bytes();
    bytes::lemma_auto_spec_u64_to_from_le_bytes();
    assert forall|value: u8| #[trigger] u8_in(encode::enc_u8(value, tail)) == Parsed::Value(
        value,
        tail,
    ) by {
        assert(encode::enc_u8(value, tail).skip(1) =~= tail);
    }
    assert forall|value: u32, rest: Seq<u8>| #[trigger]
        u32_in(encode::enc_u32(value, rest)) == Parsed::Value(value, rest) by {
        let whole = encode::enc_u32(value, rest);
        assert(whole.take(4) =~= bytes::spec_u32_to_le_bytes(value));
        assert(whole.skip(4) =~= rest);
    }
    assert forall|value: u64| #[trigger] u64_in(encode::enc_u64(value, tail)) == Parsed::Value(
        value,
        tail,
    ) by {
        let whole = encode::enc_u64(value, tail);
        assert(whole.take(8) =~= bytes::spec_u64_to_le_bytes(value));
        assert(whole.skip(8) =~= tail);
    }
    assert forall|value: Seq<u8>| encode::fits(value) implies #[trigger] bytes_in(
        encode::enc_bytes(value, tail),
        total,
    ) == Parsed::Value(value, tail) by {
        let rest = value + tail;
        assert(u32_in(encode::enc_u32(value.len() as u32, rest)) == Parsed::Value(
            value.len() as u32,
            rest,
        ));
        assert(rest.take(value.len() as int) =~= value);
        assert(rest.skip(value.len() as int) =~= tail);
    }
    assert forall|value: Seq<char>, message: Seq<char>| encode::name_fits(
        value,
    ) implies #[trigger] name_in(encode::enc_name(value, tail), total, message) == Parsed::Value(
        value,
        tail,
    ) by {
        encode_utf8_valid_utf8(value);
        encode_utf8_decode_utf8(value);
        assert(bytes_in(encode::enc_bytes(encode_utf8(value), tail), total) == Parsed::Value(
            encode_utf8(value),
            tail,
        ));
    }
}

/// A number of tables that the bytes behind it cannot hold is refused as such, whatever these
/// bytes are.
pub proof fn too_many_tables_are_refused(
    floor: u64,
    buckets: u32,
    name: Seq<char>,
    tables: u32,
    tail: Seq<u8>,
)
    requires
        buckets > 0,
        encode::name_fits(name),
        tables > tail.len() / encode::MIN_TABLE_PROPERTY_BYTES as nat,
        encode::enc_u64(
            floor,
            encode::enc_u32(
                0,
                encode::enc_u32(
                    buckets,
                    encode::enc_name(name, encode::enc_u32(tables, tail)),
                ),
            ),
        ).len() <= usize::MAX,
    ensures
        manifest_in(
            encode::enc_u64(
                floor,
                encode::enc_u32(
                    0,
                    encode::enc_u32(
                        buckets,
                        encode::enc_name(name, encode::enc_u32(tables, tail)),
                    ),
                ),
            ),
        ) == invalid::<()>("table count exceeds payload bytes"@),
{
    reveal(manifest_in);
    reveal(buckets_in);
    reveal(tables_in);
    reveal(tables_of_bucket_in);
    let counted = encode::enc_u32(tables, tail);
    let named = encode::enc_name(name, counted);
    let listed = encode::enc_u32(buckets, named);
    let without_buckets = encode::enc_u32(0, listed);
    let total = encode::enc_u64(floor, without_buckets).len();
    written_fields_are_read(tail, total);
    written_fields_are_read(counted, total);
    written_fields_are_read(named, total);
    written_fields_are_read(listed, total);
    written_fields_are_read(without_buckets, total);
    assert(buckets_in(without_buckets, total) == Parsed::Value(Seq::<Seq<char>>::empty(), listed));
    assert(tables_in(listed, total) == invalid::<Seq<Seq<char>>>(
        "table count exceeds payload bytes"@,
    ));
}

} // verus!
