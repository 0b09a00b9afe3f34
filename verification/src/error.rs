use vstd::prelude::*;

verus! {

/// Every way a decode session can fail. All failures are fatal to the
/// session and are surfaced to the caller unchanged.
#[derive(Clone, Copy, Debug, PartialEq, Eq, Structural)]
pub enum Error {
    /// The gzip signature bytes are not `0x1f 0x8b`.
    BadMagic,
    /// The gzip compression method field is not 8 (DEFLATE).
    UnsupportedMethod,
    /// The source was exhausted in the middle of a field.
    UnexpectedEof,
    /// A DEFLATE block announced the reserved block type `11`.
    ReservedBlockType,
    /// A stored block failed the LEN/NLEN one's-complement check.
    MalformedStoredBlock,
    /// A canonical code exceeded its declared length, or the prefix
    /// property was violated while building a code table.
    MalformedCodeTable,
    /// A bit sequence does not map to any leaf of the current code table.
    InvalidCode,
    /// A back-reference distance of 0, a distance beyond the current
    /// window length, or a run-length operator with no previous length.
    InvalidBackreference,
    /// The trailer ISIZE differs from the output byte count mod 2^32.
    SizeMismatch,
}

} // verus!
