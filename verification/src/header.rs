//! The global file header of a compressed file.
use vstd::prelude::*;
use crate::endian::{
    lemma_u16_be, lemma_u32_be, lemma_u64_be, push_u16_be, push_u32_be, push_u64_be,
    read_u16_be, read_u32_be, read_u64_be, u16_be, u16_of_be, u32_be, u32_of_be, u64_be,
    u64_of_be,
};
use crate::error::DecodeError;

verus! {

/// The bytes every compressed file starts with: `TRUV` in ASCII.
pub const MAGIC_BYTES: [u8; 4] = [0x54, 0x52, 0x55, 0x56];

/// The length of the stored header: magic, version, original size, checksum.
pub const HEADER_SIZE: usize = 18;

/// The magic bytes as a sequence.
pub open spec fn magic() -> Seq<u8> {
    seq![0x54u8, 0x52u8, 0x55u8, 0x56u8]
}

/// What a compressed file records of its content.
#[derive(Debug, Clone, Copy, PartialEq, Eq, Structural)]
pub struct FileHeader {
    /// The format version.
    pub version: u16,
    /// The length of the uncompressed data.
    pub original_size: u64,
    /// The CRC32 checksum of the uncompressed data.
    pub checksum: u32,
}

/// How a header is stored: the magic bytes, then version, original size and
/// checksum, each big-endian.
pub open spec fn header_bytes(h: FileHeader) -> Seq<u8> {
    magic() + u16_be(h.version) + u64_be(h.original_size) + u32_be(h.checksum)
}

/// Reads a header from the front of `b`.
pub open spec fn parse_header(b: Seq<u8>) -> Result<FileHeader, DecodeError> {
    if b.len() < 4 {
        Err(DecodeError::UnexpectedEof)
    } else if b.take(4) != magic() {
        Err(DecodeError::InvalidMagic)
    } else if b.len() < 18 {
        Err(DecodeError::UnexpectedEof)
    } else {
        Ok(
            FileHeader {
                version: u16_of_be(b.subrange(4, 6)),
                original_size: u64_of_be(b.subrange(6, 14)),
                checksum: u32_of_be(b.subrange(14, 18)),
            },
        )
    }
}

impl FileHeader {
    /// The stored form of the header (see [`header_bytes`]).
    pub fn to_bytes(&self) -> (bytes: Vec<u8>)
        ensures
            bytes@ == header_bytes(*self),
            bytes@.len() == HEADER_SIZE,
    {
        let mut bytes: Vec<u8> = Vec::with_capacity(HEADER_SIZE);
        bytes.push(0x54);
        bytes.push(0x52);
        bytes.push(0x55);
        bytes.push(0x56);
        assert(bytes@ =~= magic());
        push_u16_be(&mut bytes, self.version);
        push_u64_be(&mut bytes, self.original_size);
        push_u32_be(&mut bytes, self.checksum);
        bytes
    }

    /// Reads a header from the front of `reader` (see [`parse_header`]): fails
    /// when the bytes end first or do not start with the magic bytes.
    pub fn from_reader(reader: &[u8]) -> (r: Result<FileHeader, DecodeError>)
        ensures
            r == parse_header(reader@),
    {
        if reader.len() < 4 {
            return Err(DecodeError::UnexpectedEof);
        }
        if reader[0] != 0x54 || reader[1] != 0x52 || reader[2] != 0x55 || reader[3] != 0x56 {
            assert(reader@.take(4) != magic()) by {
                if reader@.take(4) == magic() {
                    assert(reader@.take(4)[0] == 0x54 && reader@.take(4)[1] == 0x52);
                    assert(reader@.take(4)[2] == 0x55 && reader@.take(4)[3] == 0x56);
                }
            }
            return Err(DecodeError::InvalidMagic);
        }
        assert(reader@.take(4) =~= magic());
        if reader.len() < HEADER_SIZE {
            return Err(DecodeError::UnexpectedEof);
        }
        let version = read_u16_be(reader, 4);
        let original_size = read_u64_be(reader, 6);
        let checksum = read_u32_be(reader, 14);
        Ok(FileHeader { version, original_size, checksum })
    }
}

/// A stored header reads back as itself, whatever follows it.
pub proof fn lemma_header_roundtrip(h: FileHeader, rest: Seq<u8>)
    ensures
        parse_header(header_bytes(h) + rest) == Ok::<FileHeader, DecodeError>(h),
        header_bytes(h).len() == 18,
{
    let b = header_bytes(h) + rest;
    lemma_u16_be(h.version);
    lemma_u64_be(h.original_size);
    lemma_u32_be(h.checksum);
    assert(b.take(4) =~= magic());
    assert(b.subrange(4, 6) =~= u16_be(h.version));
    assert(b.subrange(6, 14) =~= u64_be(h.original_size));
    assert(b.subrange(14, 18) =~= u32_be(h.checksum));
}

} // verus!
