//! knot: a DEFLATE-style compressor (LZ77 + canonical Huffman) with a small
//! archive format, verified with Verus.

pub mod bitio;
pub mod error;
pub mod tables;
pub mod kraft;
pub mod forest;
pub mod huffman;
pub mod optimal;
pub mod canonical;
pub mod lz77;
pub mod codec;
pub mod format;
pub mod checksum;
pub mod archive;
