//! Why a compressed stream could not be read back.
use vstd::prelude::*;

verus! {

/// The ways in which reading a compressed stream fails.
#[derive(Debug, Clone, Copy, PartialEq, Eq, Structural)]
pub enum DecodeError {
    /// The stream ended before everything it announces was read.
    UnexpectedEof,
    /// The stream does not start with the format's magic bytes.
    InvalidMagic,
    /// A block is shorter than its own eight-byte block header.
    BlockTooShort,
    /// A match refers back further than the bytes decoded so far (or zero back).
    BadMatchDistance(usize),
    /// The checksum of the decoded data differs from the one the header records.
    ChecksumMismatch,
}

} // verus!
