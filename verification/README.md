# truv_compression

A lossless block compressor with its container format, written in Verus.
Input is cut into 128 KiB blocks; each block goes through LZ77 match
reduction (hash chains, matches of 3 to 255 bytes up to 65535 bytes back),
then Huffman coding with the tree stored in pre-order in front of the codes.
A compressed file holds a header (magic `TRUV`, version, original size,
CRC32 of the data), the block count, the size of each block, then the blocks.

## Layout

- `src/bits.rs`: bit sequences, least significant bit first, and their lemmas.
- `src/code.rs`: the Huffman tree, its stored form, decoding by walking it.
- `src/huffman_tree.rs`: what the Huffman tree of a frequency table is and
  what the encoder writes with it.
- `src/huffman_optimal.rs`: why the Huffman tree is optimal.
- `src/huffman.rs`: `BitWriter`, `BitReader`, tree building, `encode`, `decode`.
- `src/lz77.rs`: tokens, how they rebuild data, how a token stream is stored and decoded.
- `src/compress.rs`: the hash-chain match search, `compress_single_block`,
  `assemble_archive`, `finish_archive`, `compress`.
- `src/decompress.rs`: `decompress_single_block`, `split_archive`,
  `join_blocks`, `decompress`.
- `src/header.rs`, `src/endian.rs`, `src/checksum.rs`, `src/error.rs`.
- `app/main.rs`: the command line; reads and writes files and runs the blocks
  on a `rayon` thread pool.

## What is proved

- `compress` produces exactly the header, the block count, the block sizes and
  the blocks, each block exactly `compress_block` of its chunk: the greedy
  LZ77 parse (longest match of at least 3 bytes among the first 32 chain
  candidates within the window, else a literal), stored in groups of eight,
  then Huffman-coded with the tree of `huffman_tree`.
- The Huffman tree is the one the joining of the two lightest trees gives;
  it covers the bytes that occur, each once, and a single byte gets a second
  leaf for byte 0.
- The Huffman tree is optimal: where two or more different bytes occur, no
  tree that gives each of them one leaf codes the data in fewer bits.
- A `BitWriter` writes out every complete byte at once; its bytes and pending
  bits are determined by the bits written.
- A compressed file cut short anywhere fails with end-of-input.
- Decompressing what `compress` produces gives the input back, and the
  header records its length and checksum.
- Each compressed block decompresses to its block; each Huffman stream decodes
  to the data it encodes; a stored tree and a stored header read back as
  themselves.
- `decode`, `decompress_single_block` and `decompress` compute exactly the
  format's decoding function, errors included, and never index out of bounds.
- Huffman trees stay at most 32 levels deep for inputs shorter than the 35th
  Fibonacci number, so every code fits its `u32`.
