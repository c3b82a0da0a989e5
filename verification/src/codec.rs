//! Identifiers of block codecs.
use vstd::prelude::*;

verus! {

/// Codec that a table block was written with.
#[derive(Debug, Clone, Copy, PartialEq, Eq, Structural)]
pub enum CodecId {
    /// Bytes are stored as they are.
    Uncompressed,
    /// Bytes are compressed with the LZ4 block format.
    FastLz4Block,
}

} // verus!
