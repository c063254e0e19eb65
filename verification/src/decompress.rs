//! Decompression: undoing the Huffman stage, then the LZ77 stage, of each block.
use vstd::prelude::*;
use crate::checksum::{checksum, crc32_of};
use crate::code::huffman_decode;
use crate::endian::{read_u16_be, read_u32_be, u32_of_be};
use crate::error::DecodeError;
use crate::header::{FileHeader, parse_header};
use crate::huffman::decode;
use crate::lz77::{copy_match, flag_set, lemma_lz_slots_pos, lz_decode, lz_groups, lz_slots};

verus! {

/// The block format: the uncompressed length and the length of the token
/// stream, each a big-endian `u32`, then the Huffman-coded token stream.
pub open spec fn decompress_block_spec(comp: Seq<u8>) -> Result<Seq<u8>, DecodeError> {
    if comp.len() < 8 {
        Err(DecodeError::BlockTooShort)
    } else {
        let ulen = u32_of_be(comp.subrange(0, 4)) as nat;
        let lz_len = u32_of_be(comp.subrange(4, 8)) as nat;
        match huffman_decode(comp.skip(8), lz_len) {
            None => Err(DecodeError::UnexpectedEof),
            Some(lz) => lz_decode(lz, ulen),
        }
    }
}

/// Decompresses one block (see [`decompress_block_spec`]).
pub fn decompress_single_block(comp_block: &[u8]) -> (r: Result<Vec<u8>, DecodeError>)
    ensures
        match r {
            Ok(v) => decompress_block_spec(comp_block@) == Ok::<Seq<u8>, DecodeError>(v@),
            Err(e) => decompress_block_spec(comp_block@) == Err::<Seq<u8>, DecodeError>(e),
        },
{
    if comp_block.len() < 8 {
        return Err(DecodeError::BlockTooShort);
    }
    let uncompressed_len = read_u32_be(comp_block, 0) as usize;
    let lz77_len = read_u32_be(comp_block, 4) as usize;
    let payload = vstd::slice::slice_subrange(comp_block, 8, comp_block.len());
    assert(payload@ =~= comp_block@.skip(8));
    let lz77_buf = match decode(payload, lz77_len) {
        Ok(v) => v,
        Err(e) => return Err(e),
    };
    let ghost buf = lz77_buf@;
    let ghost ulen = uncompressed_len as nat;
    let ghost total = lz_decode(buf, ulen);
    let mut decompressed: Vec<u8> = Vec::new();
    let mut pos: usize = 0;
    while decompressed.len() < uncompressed_len
        invariant
            buf == lz77_buf@,
            ulen == uncompressed_len,
            total == lz_decode(buf, ulen),
            decompress_block_spec(comp_block@) == total,
            pos <= buf.len(),
            total == lz_groups(buf, pos as nat, decompressed@, ulen),
        decreases buf.len() - pos,
    {
        if pos >= lz77_buf.len() {
            return Err(DecodeError::UnexpectedEof);
        }
        let flags = lz77_buf[pos];
        let ghost g = pos as nat;
        let ghost out_g = decompressed@;
        pos = pos + 1;
        let mut i: u8 = 0;
        while i < 8 && decompressed.len() < uncompressed_len
            invariant
                buf == lz77_buf@,
                ulen == uncompressed_len,
                g < pos <= buf.len(),
                i <= 8,
                total == lz_groups(buf, g, out_g, ulen),
                decompress_block_spec(comp_block@) == total,
                out_g.len() < ulen,
                g < buf.len(),
                flags == buf[g as int],
                lz_slots(buf, g + 1, out_g, ulen, flags, 0) == lz_slots(
                    buf,
                    pos as nat,
                    decompressed@,
                    ulen,
                    flags,
                    i as nat,
                ),
            decreases 8 - i,
        {
            let is_match = (flags & (1u8 << i)) != 0;
            assert(is_match == flag_set(flags, i as nat)) by {
                assert(((flags & (1u8 << i)) != 0) == ((flags >> i) & 1 == 1)) by (bit_vector)
                    requires
                        i < 8,
                ;
            }
            if is_match {
                if lz77_buf.len() - pos < 3 {
                    return Err(DecodeError::UnexpectedEof);
                }
                let distance = read_u16_be(&lz77_buf, pos) as usize;
                let length = lz77_buf[pos + 2] as usize;
                pos = pos + 3;
                if distance == 0 || distance > decompressed.len() {
                    return Err(DecodeError::BadMatchDistance(distance));
                }
                let ghost out0 = decompressed@;
                let start_idx = decompressed.len() - distance;
                let mut j: usize = 0;
                while j < length
                    invariant
                        j <= length,
                        distance >= 1,
                        start_idx + distance == out0.len(),
                        decompressed@ == copy_match(out0, distance as nat, j as nat),
                        decompressed@.len() == out0.len() + j,
                    decreases length - j,
                {
                    let cur_len = decompressed.len();
                    assert(start_idx + j < cur_len);
                    let byte = decompressed[start_idx + j];
                    decompressed.push(byte);
                    j = j + 1;
                }
            } else {
                if pos >= lz77_buf.len() {
                    return Err(DecodeError::UnexpectedEof);
                }
                decompressed.push(lz77_buf[pos]);
                pos = pos + 1;
            }
            i = i + 1;
        }
        proof {
            lemma_lz_slots_pos(buf, g + 1, out_g, ulen, flags, 0);
        }
    }
    Ok(decompressed)
}

/// The blocks one after the other.
pub open spec fn concat_blocks(bs: Seq<Seq<u8>>) -> Seq<u8>
    decreases bs.len(),
{
    if bs.len() == 0 {
        Seq::empty()
    } else {
        concat_blocks(bs.drop_last()) + bs.last()
    }
}

/// The sum of the first `k` sizes.
pub open spec fn prefix_sum(sizes: Seq<nat>, k: nat) -> nat
    decreases k,
{
    if k == 0 {
        0
    } else {
        prefix_sum(sizes, (k - 1) as nat) + sizes[k - 1]
    }
}

/// The block sizes of the index: `nb` big-endian `u32`s after the header and
/// the block count.
pub open spec fn block_sizes(a: Seq<u8>, nb: nat) -> Seq<nat> {
    Seq::new(nb, |i: int| u32_of_be(a.subrange(22 + 4 * i, 26 + 4 * i)) as nat)
}

/// Block `i` of the blocks that start at `base` and have the given sizes.
pub open spec fn block_at(a: Seq<u8>, base: nat, sizes: Seq<nat>, i: nat) -> Seq<u8> {
    a.subrange((base + prefix_sum(sizes, i)) as int, (base + prefix_sum(sizes, i) + sizes[i as int]) as int)
}

/// Splits a compressed file into its header and its compressed blocks: the
/// header, the number of blocks as a big-endian `u32`, the size of each block
/// as a big-endian `u32`, then the blocks one after the other. Fails when the
/// bytes end first; bytes after the last block are not read.
pub open spec fn parse_archive(a: Seq<u8>) -> Result<(FileHeader, Seq<Seq<u8>>), DecodeError> {
    match parse_header(a) {
        Err(e) => Err(e),
        Ok(h) => if a.len() < 22 {
            Err(DecodeError::UnexpectedEof)
        } else {
            let nb = u32_of_be(a.subrange(18, 22)) as nat;
            let base = 22 + 4 * nb;
            if a.len() < base {
                Err(DecodeError::UnexpectedEof)
            } else {
                let sizes = block_sizes(a, nb);
                if a.len() < base + prefix_sum(sizes, nb) {
                    Err(DecodeError::UnexpectedEof)
                } else {
                    Ok(
                        (
                            h,
                            Seq::new(nb, |i: int| block_at(a, base, sizes, i as nat)),
                        ),
                    )
                }
            }
        },
    }
}

/// Decompresses the blocks in order: the first block that fails gives the
/// error; else their contents one after the other.
pub open spec fn decompress_blocks(bs: Seq<Seq<u8>>) -> Result<Seq<u8>, DecodeError>
    decreases bs.len(),
{
    if bs.len() == 0 {
        Ok(Seq::empty())
    } else {
        match decompress_blocks(bs.drop_last()) {
            Err(e) => Err(e),
            Ok(d) => match decompress_block_spec(bs.last()) {
                Err(e) => Err(e),
                Ok(x) => Ok(d + x),
            },
        }
    }
}

/// The container format: the blocks of the file decompressed, provided the
/// checksum of the result is the one the header records.
pub open spec fn decompress_spec(a: Seq<u8>) -> Result<Seq<u8>, DecodeError> {
    match parse_archive(a) {
        Err(e) => Err(e),
        Ok((h, bs)) => match decompress_blocks(bs) {
            Err(e) => Err(e),
            Ok(d) => if crc32_of(d) == h.checksum {
                Ok(d)
            } else {
                Err(DecodeError::ChecksumMismatch)
            },
        },
    }
}

pub proof fn lemma_prefix_sum_monotone(sizes: Seq<nat>, i: nat, j: nat)
    requires
        i <= j <= sizes.len(),
    ensures
        prefix_sum(sizes, i) <= prefix_sum(sizes, j),
    decreases j - i,
{
    if i < j {
        lemma_prefix_sum_monotone(sizes, i, (j - 1) as nat);
    }
}

/// Splits a compressed file into its header and its compressed blocks (see
/// [`parse_archive`]).
pub fn split_archive(archive: &[u8]) -> (r: Result<(FileHeader, Vec<Vec<u8>>), DecodeError>)
    ensures
        match r {
            Ok((h, bs)) => parse_archive(archive@) == Ok::<(FileHeader, Seq<Seq<u8>>), DecodeError>(
                (h, bs@.map_values(|b: Vec<u8>| b@)),
            ),
            Err(e) => parse_archive(archive@) == Err::<(FileHeader, Seq<Seq<u8>>), DecodeError>(e),
        },
{
    let header = match FileHeader::from_reader(archive) {
        Ok(h) => h,
        Err(e) => return Err(e),
    };
    let ghost a = archive@;
    if archive.len() < 22 {
        return Err(DecodeError::UnexpectedEof);
    }
    let num_blocks = read_u32_be(archive, 18);
    let ghost nb = num_blocks as nat;
    let ghost sizes = block_sizes(a, nb);
    let mut block_index: Vec<u32> = Vec::new();
    let mut pos: usize = 22;
    let mut k: u32 = 0;
    while k < num_blocks
        invariant
            a == archive@,
            parse_header(a) == Ok::<FileHeader, DecodeError>(header),
            a.len() >= 22,
            num_blocks == u32_of_be(a.subrange(18, 22)),
            nb == num_blocks,
            sizes == block_sizes(a, nb),
            k <= num_blocks,
            pos == 22 + 4 * k,
            pos <= a.len(),
            block_index@.len() == k,
            forall|i: int| 0 <= i < k ==> block_index@[i] as nat == #[trigger] sizes[i],
        decreases num_blocks - k,
    {
        if archive.len() - pos < 4 {
            assert(a.len() < 22 + 4 * nb);
            return Err(DecodeError::UnexpectedEof);
        }
        let size = read_u32_be(archive, pos);
        block_index.push(size);
        pos = pos + 4;
        k = k + 1;
    }
    let ghost base = pos as nat;
    assert(base == 22 + 4 * nb);
    let mut compressed_blocks: Vec<Vec<u8>> = Vec::new();
    let mut j: usize = 0;
    while j < block_index.len()
        invariant
            a == archive@,
            parse_header(a) == Ok::<FileHeader, DecodeError>(header),
            a.len() >= 22,
            num_blocks == u32_of_be(a.subrange(18, 22)),
            nb == num_blocks,
            sizes == block_sizes(a, nb),
            block_index@.len() == nb,
            forall|i: int| 0 <= i < nb ==> block_index@[i] as nat == #[trigger] sizes[i],
            base == 22 + 4 * nb,
            j <= nb,
            pos == base + prefix_sum(sizes, j as nat),
            pos <= a.len(),
            compressed_blocks@.len() == j,
            forall|i: int|
                0 <= i < j ==> #[trigger] compressed_blocks@[i]@ == block_at(a, base, sizes, i as nat),
        decreases nb - j,
    {
        let size = block_index[j] as usize;
        if archive.len() - pos < size {
            proof {
                lemma_prefix_sum_monotone(sizes, (j + 1) as nat, nb);
            }
            return Err(DecodeError::UnexpectedEof);
        }
        let block = vstd::slice::slice_to_vec(vstd::slice::slice_subrange(archive, pos, pos + size));
        compressed_blocks.push(block);
        pos = pos + size;
        j = j + 1;
    }
    let ghost bs = compressed_blocks@.map_values(|b: Vec<u8>| b@);
    proof {
        let expected = Seq::new(nb, |i: int| block_at(a, base, sizes, i as nat));
        assert(bs =~= expected);
    }
    Ok((header, compressed_blocks))
}

/// Accepts the decompressed data when `computed`, its checksum, is the one the
/// header records.
pub fn verify_checksum(header: &FileHeader, data: Vec<u8>, computed: u32) -> (r: Result<
    Vec<u8>,
    DecodeError,
>)
    ensures
        computed == header.checksum ==> (r matches Ok(d) && d@ == data@),
        computed != header.checksum ==> r == Err::<Vec<u8>, DecodeError>(
            DecodeError::ChecksumMismatch,
        ),
{
    if computed != header.checksum {
        return Err(DecodeError::ChecksumMismatch);
    }
    Ok(data)
}

/// Joins the decompressed blocks in order and accepts the result when its
/// CRC32 checksum is the one the header records.
pub fn join_blocks(header: &FileHeader, blocks: Vec<Vec<u8>>) -> (r: Result<Vec<u8>, DecodeError>)
    ensures
        crc32_of(concat_blocks(blocks@.map_values(|b: Vec<u8>| b@))) == header.checksum ==> (r matches Ok(
            d,
        ) && d@ == concat_blocks(blocks@.map_values(|b: Vec<u8>| b@))),
        crc32_of(concat_blocks(blocks@.map_values(|b: Vec<u8>| b@))) != header.checksum ==> r == Err::<
            Vec<u8>,
            DecodeError,
        >(DecodeError::ChecksumMismatch),
{
    let ghost bs = blocks@.map_values(|b: Vec<u8>| b@);
    let mut data: Vec<u8> = Vec::new();
    let mut i: usize = 0;
    assert(concat_blocks(bs.take(0)) =~= Seq::<u8>::empty());
    while i < blocks.len()
        invariant
            bs == blocks@.map_values(|b: Vec<u8>| b@),
            i <= blocks@.len(),
            data@ == concat_blocks(bs.take(i as int)),
        decreases blocks@.len() - i,
    {
        let block = &blocks[i];
        let ghost before = data@;
        let mut j: usize = 0;
        assert(before + block@.take(0) =~= before);
        while j < block.len()
            invariant
                j <= block@.len(),
                data@ == before + block@.take(j as int),
            decreases block@.len() - j,
        {
            data.push(block[j]);
            assert(data@ =~= before + block@.take(j + 1));
            j = j + 1;
        }
        assert(block@.take(block@.len() as int) =~= block@);
        assert(bs.take(i + 1).drop_last() =~= bs.take(i as int));
        i = i + 1;
    }
    assert(bs.take(bs.len() as int) =~= bs);
    let computed = checksum(data.as_slice());
    verify_checksum(header, data, computed)
}

/// Decompresses a compressed file (see [`decompress_spec`]): splits it into its
/// blocks, decompresses each, and checks the checksum of the result.
pub fn decompress(archive: &[u8]) -> (r: Result<Vec<u8>, DecodeError>)
    ensures
        match r {
            Ok(v) => decompress_spec(archive@) == Ok::<Seq<u8>, DecodeError>(v@),
            Err(e) => decompress_spec(archive@) == Err::<Seq<u8>, DecodeError>(e),
        },
        r matches Ok(v) ==> archive@.len() >= 18 && crc32_of(v@) == stored_checksum(archive@),
{
    proof {
        lemma_decompress_checks_crc(archive@);
    }
    let (header, compressed_blocks) = match split_archive(archive) {
        Ok(p) => p,
        Err(e) => return Err(e),
    };
    let ghost bs = compressed_blocks@.map_values(|b: Vec<u8>| b@);
    let mut decompressed_blocks: Vec<Vec<u8>> = Vec::new();
    let mut i: usize = 0;
    assert(decompressed_blocks@.map_values(|b: Vec<u8>| b@) =~= Seq::<Seq<u8>>::empty());
    while i < compressed_blocks.len()
        invariant
            bs == compressed_blocks@.map_values(|b: Vec<u8>| b@),
            parse_archive(archive@) == Ok::<(FileHeader, Seq<Seq<u8>>), DecodeError>((header, bs)),
            i <= bs.len(),
            decompress_blocks(bs.take(i as int)) == Ok::<Seq<u8>, DecodeError>(
                concat_blocks(decompressed_blocks@.map_values(|b: Vec<u8>| b@)),
            ),
        decreases bs.len() - i,
    {
        proof {
            assert(bs.take(i + 1).drop_last() =~= bs.take(i as int));
            assert(bs.take(i + 1).last() == compressed_blocks@[i as int]@);
        }
        let block = match decompress_single_block(compressed_blocks[i].as_slice()) {
            Ok(b) => b,
            Err(e) => {
                proof {
                    assert(decompress_block_spec(bs.take(i + 1).last()) == Err::<Seq<u8>, DecodeError>(e));
                    assert(decompress_blocks(bs.take(i + 1)) == Err::<Seq<u8>, DecodeError>(e));
                    lemma_decompress_blocks_err(bs, (i + 1) as nat);
                }
                return Err(e);
            },
        };
        let ghost old_outs = decompressed_blocks@.map_values(|b: Vec<u8>| b@);
        decompressed_blocks.push(block);
        proof {
            let outs = decompressed_blocks@.map_values(|b: Vec<u8>| b@);
            assert(outs.drop_last() =~= old_outs);
        }
        i = i + 1;
    }
    assert(bs.take(bs.len() as int) =~= bs);
    join_blocks(&header, decompressed_blocks)
}

/// The checksum a compressed file records: bytes 14 to 17, most significant
/// first.
pub open spec fn stored_checksum(a: Seq<u8>) -> int {
    a[14] as int * 0x100_0000 + a[15] as int * 0x1_0000 + a[16] as int * 0x100 + a[17] as int
}

/// Whatever number of blocks a compressed file has, it decompresses only to
/// data whose CRC32 checksum is the one it records.
pub proof fn lemma_decompress_checks_crc(a: Seq<u8>)
    ensures
        decompress_spec(a) matches Ok(d) ==> a.len() >= 18 && crc32_of(d) == stored_checksum(a),
{
    if decompress_spec(a) is Ok {
        let b = a.subrange(14, 18);
        let (b0, b1, b2, b3) = (b[0], b[1], b[2], b[3]);
        assert(b0 == a[14] && b1 == a[15] && b2 == a[16] && b3 == a[17]);
        assert((((b0 as u32) << 24u32) | ((b1 as u32) << 16u32) | ((b2 as u32) << 8u32) | (b3 as u32))
            == b0 as u32 * 0x100_0000 + b1 as u32 * 0x1_0000 + b2 as u32 * 0x100 + b3 as u32)
            by (bit_vector);
    }
}

/// Once a block fails, decompressing more blocks fails the same way.
pub proof fn lemma_decompress_blocks_err(bs: Seq<Seq<u8>>, k: nat)
    requires
        k <= bs.len(),
        decompress_blocks(bs.take(k as int)) is Err,
    ensures
        decompress_blocks(bs) == decompress_blocks(bs.take(k as int)),
    decreases bs.len() - k,
{
    if k < bs.len() {
        assert(bs.take(k + 1 as int).drop_last() =~= bs.take(k as int));
        lemma_decompress_blocks_err(bs, k + 1);
    } else {
        assert(bs.take(k as int) =~= bs);
    }
}

} // verus!
