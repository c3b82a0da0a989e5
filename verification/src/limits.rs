//! Size limits of decoded and accepted data.
use vstd::prelude::*;
use vstd::string::*;

use crate::error::{Error, ErrorKind, Result};
use crate::text;

verus! {

/// Largest decoded table block.
pub const MAX_DECODED_BLOCK_BYTES: usize = 64 * 1024 * 1024;

/// Largest table that is decoded as a whole.
pub const MAX_WHOLE_TABLE_DECODE_BYTES: usize = 256 * 1024 * 1024;

/// Largest blob file that is decoded as a whole.
pub const MAX_WHOLE_BLOB_DECODE_BYTES: usize = 256 * 1024 * 1024;

/// Largest body of one blob record.
pub const MAX_BLOB_RECORD_BODY_BYTES: usize = 64 * 1024 * 1024;

/// Largest properties block of a blob file.
pub const MAX_BLOB_PROPERTIES_BYTES: usize = 16 * 1024 * 1024;

/// Largest payload of one WAL frame.
pub const MAX_WAL_FRAME_PAYLOAD_BYTES: usize = 64 * 1024 * 1024;

/// Largest payload of a manifest.
pub const MAX_MANIFEST_PAYLOAD_BYTES: usize = 64 * 1024 * 1024;

/// Largest user key.
///
/// Blob properties retain both boundary internal keys. Reserving fixed metadata
/// room and dividing the remainder by two guarantees every accepted key can be
/// represented in that properties block.
pub const MAX_USER_KEY_BYTES: usize = (MAX_BLOB_PROPERTIES_BYTES - 128) / 2;

/// Room that a blob record leaves for a compressed value.
///
/// LZ4's block worst case is input + input/255 + 16. Reserve the maximum key and
/// fixed record metadata too, so independently accepted maximum key/value fields
/// remain encodable when they occur in the same put.
pub const MAX_BLOB_VALUE_BUDGET: usize = MAX_BLOB_RECORD_BODY_BYTES - MAX_USER_KEY_BYTES - 64 - 16;

/// Largest user value.
pub const MAX_USER_VALUE_BYTES: usize = (MAX_BLOB_VALUE_BUDGET / 256) * 255 + (MAX_BLOB_VALUE_BUDGET
    % 256) * 255 / 256;

/// Two boundary keys of the largest accepted size fit in a properties block, with
/// the room reserved for its fixed fields.
pub proof fn boundary_keys_fit_properties()
    ensures
        2 * MAX_USER_KEY_BYTES + 128 <= MAX_BLOB_PROPERTIES_BYTES,
{
}

/// A largest value, expanded by the worst case of LZ4 block compression, fits in a
/// blob record beside a largest key and the fixed record fields.
pub proof fn largest_put_fits_blob_record()
    ensures
        MAX_USER_VALUE_BYTES + MAX_USER_VALUE_BYTES / 255 + 16 + MAX_USER_KEY_BYTES + 64
            <= MAX_BLOB_RECORD_BODY_BYTES,
{
}

/// The text for a length above its limit.
pub open spec fn exceeds_text(field: Seq<char>, len: nat, max: nat) -> Seq<char> {
    field + " "@ + text::decimal(len) + " exceeds maximum "@ + text::decimal(max)
}

fn exceeds_message(field: &str, len: usize, max: usize) -> (message: String)
    ensures
        message@ == exceeds_text(field@, len as nat, max as nat),
{
    let mut message: String = text::join(field, " ");
    text::push_decimal(&mut message, len as u64);
    message.append(" exceeds maximum ");
    text::push_decimal(&mut message, max as u64);
    message
}

/// Accepts a length up to `max`; a longer one is a format error.
pub fn ensure_invalid_format_len(len: usize, max: usize, field: &str) -> (result: Result<()>)
    ensures
        match result {
            Ok(_) => len <= max,
            Err(error) => len > max && error.says(
                ErrorKind::InvalidFormat,
                exceeds_text(field@, len as nat, max as nat),
            ),
        },
{
    if len <= max {
        return Ok(());
    }
    Err(Error::InvalidFormat { message: exceeds_message(field, len, max) })
}

/// Accepts a length up to `max`; a longer one is corruption.
pub fn ensure_corruption_len(len: usize, max: usize, field: &str) -> (result: Result<()>)
    ensures
        match result {
            Ok(_) => len <= max,
            Err(error) => len > max && error.says(
                ErrorKind::Corruption,
                exceeds_text(field@, len as nat, max as nat),
            ),
        },
{
    if len <= max {
        return Ok(());
    }
    Err(Error::Corruption { message: exceeds_message(field, len, max) })
}

/// Adds two lengths; a sum that does not fit is a format error.
pub fn checked_add_invalid_format(left: usize, right: usize, field: &str) -> (result: Result<usize>)
    ensures
        match result {
            Ok(sum) => sum == left + right,
            Err(error) => left + right > usize::MAX && error.says(
                ErrorKind::InvalidFormat,
                field@ + " overflows"@,
            ),
        },
{
    match left.checked_add(right) {
        Some(sum) => Ok(sum),
        None => Err(Error::InvalidFormat { message: text::join(field, " overflows") }),
    }
}

} // verus!
