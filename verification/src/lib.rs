//! A verified decompressor for the gzip container format wrapping
//! DEFLATE-compressed data: a bit-oriented reader, canonical-Huffman
//! prefix trees, a 32 KiB sliding-window output buffer, and the block
//! decoders for stored, fixed-Huffman, and dynamic-Huffman blocks.

pub mod decompress;
pub mod error;
pub mod reader;
pub mod ring_buffer;
pub mod tree;
pub mod writer;

use vstd::prelude::*;

verus! {

/// Options chosen by the caller of a decode session.
pub struct DecompressOptions {
    /// Report the parsed gzip header fields to the caller.
    pub show_header: bool,
    /// Discard the decoded output instead of emitting it.
    pub no_emit: bool,
}

} // verus!
