//! The CRC32 checksum of the uncompressed data, computed by `crc32fast`.
use vstd::prelude::*;

verus! {

/// One step of the bitwise CRC-32 division: shift right, and reduce by the
/// reflected IEEE polynomial when the bit shifted out is set.
pub open spec fn crc32_shift(c: u32) -> u32 {
    if (c & 1) == 1 {
        (c >> 1u32) ^ 0xEDB8_8320u32
    } else {
        c >> 1u32
    }
}

/// `k` steps of the division.
pub open spec fn crc32_shifts(c: u32, k: nat) -> u32
    decreases k,
{
    if k == 0 {
        c
    } else {
        crc32_shifts(crc32_shift(c), (k - 1) as nat)
    }
}

/// The CRC-32 register after `data`: it starts with all bits set, and each
/// byte is added into its low bits and divided through, eight steps a byte.
pub open spec fn crc32_register(data: Seq<u8>) -> u32
    decreases data.len(),
{
    if data.len() == 0 {
        0xFFFF_FFFFu32
    } else {
        crc32_shifts(crc32_register(data.drop_last()) ^ (data.last() as u32), 8)
    }
}

/// The CRC-32 (IEEE) checksum of `data`: the final register, inverted.
pub open spec fn crc32_of(data: Seq<u8>) -> u32 {
    crc32_register(data) ^ 0xFFFF_FFFFu32
}

/// Calls `crc32fast::hash`, which computes the CRC32 (IEEE) checksum of a
/// byte slice (the same as `Hasher::new`, `update` and `finalize`). The
/// contract claims that the result is that checksum, as [`crc32_of`] states
/// it bit by bit.
#[verifier::external_body]
fn crc32_hash(data: &[u8]) -> (c: u32)
    ensures
        c == crc32_of(data@),
{
    crc32fast::hash(data)
}

/// The CRC32 checksum of `data`.
pub fn checksum(data: &[u8]) -> (c: u32)
    ensures
        c == crc32_of(data@),
{
    crc32_hash(data)
}

} // verus!
