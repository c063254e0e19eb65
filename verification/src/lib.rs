//! A block compressor: LZ77 match reduction followed by Huffman coding,
//! with a checksummed container format.
pub mod bits;
pub mod checksum;
pub mod code;
pub mod compress;
pub mod decompress;
pub mod endian;
pub mod error;
pub mod header;
pub mod huffman;
pub mod huffman_optimal;
pub mod huffman_tree;
pub mod lz77;
