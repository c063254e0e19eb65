//! Compression: LZ77 match reduction, then Huffman coding, of each block.
use vstd::prelude::*;
use crate::checksum::{checksum, crc32_of};
use crate::code::huffman_decode;
use crate::decompress::{
    block_at, block_sizes, concat_blocks, decompress_block_spec, decompress_blocks,
    decompress_spec, parse_archive, prefix_sum,
};
use crate::endian::{lemma_u16_be, lemma_u32_be, push_u16_be, push_u32_be, u32_be};
use crate::error::DecodeError;
use crate::header::{FileHeader, header_bytes, lemma_header_roundtrip, parse_header};
use crate::huffman::encode;
use crate::huffman_tree::{huffman_encode, lemma_short_data_shallow_tree};
use crate::lz77::{
    Token, group_bytes, lemma_copy_match_rebuilds, lemma_groups_decode, lemma_lz_stream_append,
    lemma_lz_stream_group, lemma_replay_push, lemma_tokens_bytes_push, lz_stream, replay,
    matches_long_enough, token_flags, tokens_bytes, tokens_ok,
};

verus! {

/// The size of the blocks the input is cut into.
pub const BLOCK_SIZE: usize = 131072;

/// How far back a match may reach.
pub const WINDOW_SIZE: usize = 65535;

/// The shortest match worth a token.
pub const MIN_MATCH_LEN: usize = 3;

/// The longest match one token holds.
pub const MAX_MATCH_LEN: usize = 255;

/// How many earlier positions with the same hash are tried.
pub const MAX_CHAIN_DEPTH: usize = 32;

/// The hash of three bytes that indexes the match chains.
pub open spec fn hash3(b0: u8, b1: u8, b2: u8) -> u32 {
    let val = ((b0 as u32) << 16u32) | ((b1 as u32) << 8u32) | (b2 as u32);
    ((((val as int) * 2654435761) % 0x1_0000_0000) as u32 >> 16u32) & 0xFFFF
}

/// The chain index of three bytes is the top half of the 32-bit product of
/// their big-endian value with 2654435761: 65536 chains, one for each value
/// of the top 16 bits.
pub proof fn lemma_hash3_value(b0: u8, b1: u8, b2: u8)
    ensures
        hash3(b0, b1, b2) as int == ((b0 as int * 0x1_0000 + b1 as int * 0x100 + b2 as int)
            * 2654435761) % 0x1_0000_0000 / 0x1_0000,
        hash3(b0, b1, b2) < 0x1_0000,
{
    let val = ((b0 as u32) << 16u32) | ((b1 as u32) << 8u32) | (b2 as u32);
    let m = (((val as int) * 2654435761) % 0x1_0000_0000) as u32;
    assert(m == ((val as int) * 2654435761) % 0x1_0000_0000);
    assert(val == b0 as u32 * 0x1_0000 + b1 as u32 * 0x100 + b2 as u32 && (m >> 16u32) & 0xFFFF == m
        / 0x1_0000 && m / 0x1_0000 < 0x1_0000) by (bit_vector)
        requires
            val == ((b0 as u32) << 16u32) | ((b1 as u32) << 8u32) | (b2 as u32),
    ;
}

/// The hash of the first three bytes of `bytes` (see [`hash3`]).
fn get_hash(bytes: &[u8]) -> (h: usize)
    requires
        bytes@.len() >= 3,
    ensures
        h == hash3(bytes@[0], bytes@[1], bytes@[2]),
        h < 65536,
{
    let val = ((bytes[0] as u32) << 16) | ((bytes[1] as u32) << 8) | (bytes[2] as u32);
    let m = val.wrapping_mul(2654435761);
    let h = (m >> 16) & 0xFFFF;
    assert(h < 65536) by (bit_vector)
        requires
            h == (m >> 16) & 0xFFFF,
    ;
    h as usize
}

/// Stores a group of at most eight tokens (see [`group_bytes`]); a group of no
/// tokens is not stored. Gives the number of bytes written.
fn write_block(writer: &mut Vec<u8>, tokens: &[Token]) -> (written: usize)
    requires
        tokens@.len() <= 8,
    ensures
        tokens@.len() == 0 ==> final(writer)@ == old(writer)@ && written == 0,
        tokens@.len() > 0 ==> final(writer)@ == old(writer)@ + group_bytes(tokens@),
        final(writer)@.len() == old(writer)@.len() + written,
{
    if tokens.len() == 0 {
        return 0;
    }
    let mut flags: u8 = 0;
    let mut i: usize = 0;
    while i < tokens.len()
        invariant
            i <= tokens@.len() <= 8,
            flags == token_flags(tokens@.take(i as int)),
        decreases tokens@.len() - i,
    {
        proof {
            assert(tokens@.take(i + 1).drop_last() =~= tokens@.take(i as int));
        }
        if let Token::Match { .. } = tokens[i] {
            flags = flags | (1u8 << (i as u8));
        }
        i = i + 1;
    }
    assert(tokens@.take(tokens@.len() as int) =~= tokens@);
    let mut written: usize = 0;
    writer.push(flags);
    written = written + 1;
    let ghost start = writer@;
    proof {
        assert(tokens_bytes(tokens@.take(0)) =~= Seq::<u8>::empty());
        assert(start + Seq::<u8>::empty() =~= start);
    }
    let mut k: usize = 0;
    while k < tokens.len()
        invariant
            k <= tokens@.len() <= 8,
            start == old(writer)@.push(flags),
            flags == token_flags(tokens@),
            writer@ == start + tokens_bytes(tokens@.take(k as int)),
            writer@.len() == old(writer)@.len() + written,
            written <= 1 + 3 * k,
        decreases tokens@.len() - k,
    {
        let token = tokens[k];
        match token {
            Token::Literal(b) => {
                writer.push(b);
                written = written + 1;
            },
            Token::Match { distance, length } => {
                push_u16_be(writer, distance);
                writer.push(length);
                written = written + 3;
            },
        }
        proof {
            assert(tokens@.take(k + 1) =~= tokens@.take(k as int).push(token));
            lemma_tokens_bytes_push(tokens@.take(k as int), token);
            assert(writer@ =~= start + tokens_bytes(tokens@.take(k + 1)));
        }
        k = k + 1;
    }
    assert(writer@ =~= old(writer)@ + group_bytes(tokens@));
    written
}

/// Byte `j` of `v`, counted from the least significant one.
pub open spec fn byte_at(v: u64, j: u64) -> u64 {
    (v >> (8 * j)) & 0xff
}

/// The eight bytes at `i`, read as a little-endian word.
fn load_u64_le(s: &[u8], i: usize) -> (v: u64)
    requires
        i + 8 <= s@.len(),
    ensures
        forall|j: u64| j < 8 ==> #[trigger] byte_at(v, j) == s@[i + j] as u64,
{
    let b0 = s[i] as u64;
    let b1 = s[i + 1] as u64;
    let b2 = s[i + 2] as u64;
    let b3 = s[i + 3] as u64;
    let b4 = s[i + 4] as u64;
    let b5 = s[i + 5] as u64;
    let b6 = s[i + 6] as u64;
    let b7 = s[i + 7] as u64;
    let v = b0 | (b1 << 8) | (b2 << 16) | (b3 << 24) | (b4 << 32) | (b5 << 40) | (b6 << 48) | (b7
        << 56);
    assert(byte_at(v, 0) == b0 && byte_at(v, 1) == b1 && byte_at(v, 2) == b2 && byte_at(v, 3)
        == b3 && byte_at(v, 4) == b4 && byte_at(v, 5) == b5 && byte_at(v, 6) == b6 && byte_at(v, 7)
        == b7) by (bit_vector)
        requires
            b0 < 256,
            b1 < 256,
            b2 < 256,
            b3 < 256,
            b4 < 256,
            b5 < 256,
            b6 < 256,
            b7 < 256,
            v == b0 | (b1 << 8) | (b2 << 16) | (b3 << 24) | (b4 << 32) | (b5 << 40) | (b6 << 48) | (
            b7 << 56),
    ;
    assert forall|j: u64| j < 8 implies #[trigger] byte_at(v, j) == s@[i + j] as u64 by {
        if j == 0 {
        } else if j == 1 {
        } else if j == 2 {
        } else if j == 3 {
        } else if j == 4 {
        } else if j == 5 {
        } else if j == 6 {
        } else {
            assert(j == 7);
        }
    }
    v
}

/// A byte whose eight bits below bit `8 * j + 8` are all clear is zero.
proof fn lemma_low_byte_zero(d: u64, j: u64)
    requires
        j < 8,
        forall|b: u64| b < 8 * j + 8 ==> #[trigger] ((d >> b) & 1u64) == 0u64,
    ensures
        byte_at(d, j) == 0,
{
    let s = (8 * j) as u64;
    assert((d >> s) & 1u64 == 0u64);
    assert((d >> ((s + 1) as u64)) & 1u64 == 0u64);
    assert((d >> ((s + 2) as u64)) & 1u64 == 0u64);
    assert((d >> ((s + 3) as u64)) & 1u64 == 0u64);
    assert((d >> ((s + 4) as u64)) & 1u64 == 0u64);
    assert((d >> ((s + 5) as u64)) & 1u64 == 0u64);
    assert((d >> ((s + 6) as u64)) & 1u64 == 0u64);
    assert((d >> ((s + 7) as u64)) & 1u64 == 0u64);
    assert((d >> s) & 0xff == 0) by (bit_vector)
        requires
            s <= 56,
            (d >> s) & 1u64 == 0u64,
            (d >> ((s + 1) as u64)) & 1u64 == 0u64,
            (d >> ((s + 2) as u64)) & 1u64 == 0u64,
            (d >> ((s + 3) as u64)) & 1u64 == 0u64,
            (d >> ((s + 4) as u64)) & 1u64 == 0u64,
            (d >> ((s + 5) as u64)) & 1u64 == 0u64,
            (d >> ((s + 6) as u64)) & 1u64 == 0u64,
            (d >> ((s + 7) as u64)) & 1u64 == 0u64,
    ;
}

/// The length of the common prefix of the eight-byte windows at `a` and `b`,
/// found by comparing them as little-endian words: 8 when they are equal,
/// else the number of trailing zero bits of their difference, in whole bytes.
fn common_prefix_8(chunk: &[u8], a: usize, b: usize) -> (k: usize)
    requires
        a + 8 <= chunk@.len(),
        b + 8 <= chunk@.len(),
    ensures
        k <= 8,
        forall|j: int| 0 <= j < k ==> chunk@[a + j] == #[trigger] chunk@[b + j],
        k < 8 ==> chunk@[a + k] != chunk@[b + k],
{
    let val_pos = load_u64_le(chunk, a);
    let val_match = load_u64_le(chunk, b);
    if val_pos == val_match {
        assert forall|j: int| 0 <= j < 8 implies chunk@[a + j] == #[trigger] chunk@[b + j] by {
            assert(byte_at(val_pos, j as u64) == byte_at(val_match, j as u64));
        }
        8
    } else {
        let diff = val_pos ^ val_match;
        let tz = diff.trailing_zeros();
        proof {
            vstd::std_specs::bits::axiom_u64_trailing_zeros(diff);
            assert(diff != 0) by (bit_vector)
                requires
                    diff == val_pos ^ val_match,
                    val_pos != val_match,
            ;
        }
        let k = (tz / 8) as usize;
        proof {
            assert forall|j: int| 0 <= j < k implies chunk@[a + j] == #[trigger] chunk@[b + j] by {
                let ju = j as u64;
                lemma_low_byte_zero(diff, ju);
                let x = byte_at(val_pos, ju);
                let y = byte_at(val_match, ju);
                assert(x == y) by (bit_vector)
                    requires
                        ju < 8,
                        diff == val_pos ^ val_match,
                        (diff >> (8 * ju)) & 0xff == 0,
                        x == (val_pos >> (8 * ju)) & 0xff,
                        y == (val_match >> (8 * ju)) & 0xff,
                ;
            }
            let t = tz as u64;
            let ku = k as u64;
            assert((diff >> t) & 1u64 == 1u64);
            let x = byte_at(val_pos, ku);
            let y = byte_at(val_match, ku);
            assert(x != y) by (bit_vector)
                requires
                    t < 64,
                    ku == t / 8,
                    diff == val_pos ^ val_match,
                    (diff >> t) & 1u64 == 1u64,
                    x == (val_pos >> (8 * ku)) & 0xff,
                    y == (val_match >> (8 * ku)) & 0xff,
            ;
        }
        k
    }
}

/// The hash of the three bytes at `p`.
pub open spec fn hash_at(c: Seq<u8>, p: int) -> int {
    hash3(c[p], c[p + 1], c[p + 2]) as int
}

/// The hash of the three bytes at `p` is the top half of the 32-bit product
/// of their big-endian value with 2654435761.
pub proof fn lemma_hash_at_value(c: Seq<u8>, p: int)
    requires
        0 <= p,
        p + 3 <= c.len(),
    ensures
        hash_at(c, p) == ((c[p] as int * 0x1_0000 + c[p + 1] as int * 0x100 + c[p + 2] as int)
            * 2654435761) % 0x1_0000_0000 / 0x1_0000,
{
    lemma_hash3_value(c[p], c[p + 1], c[p + 2]);
}

/// Records position `p` in the hash chains: `p` becomes the head of the chain
/// of its hash, and links to the former head. Positions closer than three bytes
/// to the end have no hash and are not recorded.
pub open spec fn insert_pos(c: Seq<u8>, head: Seq<i32>, prev: Seq<i32>, p: int) -> (Seq<i32>, Seq<i32>) {
    if p + 3 <= c.len() {
        let h = hash_at(c, p);
        (head.update(h, p as i32), prev.update(p, head[h]))
    } else {
        (head, prev)
    }
}

/// Records `count` positions from `p` on.
pub open spec fn insert_range(c: Seq<u8>, head: Seq<i32>, prev: Seq<i32>, p: int, count: nat) -> (
    Seq<i32>,
    Seq<i32>,
)
    decreases count,
{
    if count == 0 {
        (head, prev)
    } else {
        let (h2, p2) = insert_pos(c, head, prev, p);
        insert_range(c, h2, p2, p + 1, (count - 1) as nat)
    }
}

/// The longest match a candidate may give: at most 255 bytes, up to the end,
/// and not past the position it is compared with.
pub open spec fn match_cap(c: Seq<u8>, pos: int, mp: int) -> int {
    let a = if 255 < c.len() - pos { 255 } else { c.len() - pos };
    if a < pos - mp { a } else { pos - mp }
}

/// The number of equal bytes at `pos` and `mp`, from `k` on, up to `cap`.
pub open spec fn common_len(c: Seq<u8>, pos: int, mp: int, cap: int, k: int) -> int
    decreases cap - k,
{
    if k >= cap || c[pos + k] != c[mp + k] {
        k
    } else {
        common_len(c, pos, mp, cap, k + 1)
    }
}

/// The length of the match at `pos` with the earlier position `mp`.
pub open spec fn match_len(c: Seq<u8>, pos: int, mp: int) -> int {
    common_len(c, pos, mp, match_cap(c, pos, mp), 0)
}

/// Walks the hash chain from `match_pos`, trying at most 32 candidates no more
/// than [`WINDOW_SIZE`] bytes back, and keeps the first longest match of at
/// least three bytes; stops at a match of 255 bytes. Gives its length and
/// distance, (0, 0) for none.
pub open spec fn chain_search(
    c: Seq<u8>,
    prev: Seq<i32>,
    pos: int,
    match_pos: int,
    depth: nat,
    best_len: int,
    best_dist: int,
) -> (int, int)
    decreases 32 - depth,
{
    if match_pos == -1 || depth >= 32 || pos - match_pos > 65535 {
        (best_len, best_dist)
    } else {
        let len = match_len(c, pos, match_pos);
        if len >= 3 && len > best_len {
            if len == 255 {
                (len, pos - match_pos)
            } else {
                chain_search(c, prev, pos, prev[match_pos] as int, depth + 1, len, pos - match_pos)
            }
        } else {
            chain_search(c, prev, pos, prev[match_pos] as int, depth + 1, best_len, best_dist)
        }
    }
}

/// The match chosen at `pos`: the chain search from the head of the chain of
/// its hash; none closer than three bytes to the end.
pub open spec fn best_match(c: Seq<u8>, head: Seq<i32>, prev: Seq<i32>, pos: int) -> (int, int) {
    if pos + 3 <= c.len() {
        chain_search(c, prev, pos, head[hash_at(c, pos)] as int, 0, 0, 0)
    } else {
        (0, 0)
    }
}

/// The position `j` steps down the chain from `mp` (-1 once the chain ends).
pub open spec fn chain_walk(prev: Seq<i32>, mp: int, j: nat) -> int
    decreases j,
{
    if j == 0 {
        mp
    } else if mp == -1 {
        -1
    } else {
        chain_walk(prev, prev[mp] as int, (j - 1) as nat)
    }
}

/// Hash chains link each position only to earlier ones.
pub open spec fn chains_ok(c: Seq<u8>, head: Seq<i32>, prev: Seq<i32>, pos: int) -> bool {
    &&& head.len() == 65536
    &&& prev.len() == c.len()
    &&& forall|h: int| 0 <= h < 65536 ==> #[trigger] head[h] == -1 || (0 <= head[h] < pos)
    &&& forall|i: int| 0 <= i < c.len() ==> #[trigger] prev[i] == -1 || (0 <= prev[i] < i)
}

proof fn lemma_chain_walk_below(prev: Seq<i32>, n: int, mp: int, j: nat)
    requires
        prev.len() == n,
        forall|i: int| 0 <= i < n ==> #[trigger] prev[i] == -1 || (0 <= prev[i] < i),
        mp == -1 || 0 <= mp < n,
    ensures
        chain_walk(prev, mp, j) == -1 || (0 <= chain_walk(prev, mp, j) <= mp),
        j > 0 && chain_walk(prev, mp, j) != -1 ==> chain_walk(prev, mp, j) < mp,
    decreases j,
{
    if j > 0 && mp != -1 {
        lemma_chain_walk_below(prev, n, prev[mp] as int, (j - 1) as nat);
    }
}

proof fn lemma_common_len_at_least(c: Seq<u8>, pos: int, mp: int, cap: int, k: int)
    requires
        0 <= k <= cap,
    ensures
        common_len(c, pos, mp, cap, k) >= k,
        common_len(c, pos, mp, cap, k) <= cap,
    decreases cap - k,
{
    if k < cap && c[pos + k] == c[mp + k] {
        lemma_common_len_at_least(c, pos, mp, cap, k + 1);
    }
}

proof fn lemma_chain_search_keeps(
    c: Seq<u8>,
    prev: Seq<i32>,
    pos: int,
    mp: int,
    depth: nat,
    bl: int,
    bd: int,
)
    ensures
        chain_search(c, prev, pos, mp, depth, bl, bd).0 >= bl,
    decreases 32 - depth,
{
    if !(mp == -1 || depth >= 32 || pos - mp > 65535) {
        let len = match_len(c, pos, mp);
        if len >= 3 && len > bl {
            if len != 255 {
                lemma_chain_search_keeps(c, prev, pos, prev[mp] as int, depth + 1, len, pos - mp);
            }
        } else {
            lemma_chain_search_keeps(c, prev, pos, prev[mp] as int, depth + 1, bl, bd);
        }
    }
}

proof fn lemma_chain_search_longest(
    c: Seq<u8>,
    prev: Seq<i32>,
    pos: int,
    mp: int,
    depth: nat,
    bl: int,
    bd: int,
    j: nat,
    len: int,
)
    requires
        prev.len() == c.len(),
        forall|i: int| 0 <= i < c.len() ==> #[trigger] prev[i] == -1 || (0 <= prev[i] < i),
        0 <= pos < c.len(),
        mp == -1 || 0 <= mp < pos,
        depth + j < 32,
        chain_walk(prev, mp, j) != -1,
        pos - chain_walk(prev, mp, j) <= 65535,
        3 <= len <= 255,
        pos + len <= c.len(),
        chain_walk(prev, mp, j) + len <= pos,
        forall|t: int| 0 <= t < len ==> c[pos + t] == #[trigger] c[chain_walk(prev, mp, j) + t],
    ensures
        chain_search(c, prev, pos, mp, depth, bl, bd).0 >= len,
    decreases j,
{
    lemma_chain_walk_below(prev, c.len() as int, mp, j);
    assert(mp != -1);
    let m = match_len(c, pos, mp);
    if j == 0 {
        let cap = match_cap(c, pos, mp);
        lemma_common_len(c, pos, mp, cap, len);
        lemma_common_len_at_least(c, pos, mp, cap, len);
        assert(m >= len);
        if m >= 3 && m > bl {
            if m != 255 {
                lemma_chain_search_keeps(c, prev, pos, prev[mp] as int, depth + 1, m, pos - mp);
            }
        } else {
            lemma_chain_search_keeps(c, prev, pos, prev[mp] as int, depth + 1, bl, bd);
        }
    } else {
        let nxt = prev[mp] as int;
        assert(chain_walk(prev, mp, j) == chain_walk(prev, nxt, (j - 1) as nat));
        if m >= 3 && m > bl {
            if m != 255 {
                lemma_chain_search_longest(c, prev, pos, nxt, depth + 1, m, pos - mp, (j - 1) as nat, len);
            } else {
            }
        } else {
            lemma_chain_search_longest(c, prev, pos, nxt, depth + 1, bl, bd, (j - 1) as nat, len);
        }
    }
}

/// The match chosen at a position is at least as long as the common prefix
/// with any of the first 32 earlier positions of its hash chain that lie no
/// more than 65535 bytes back, as far as such a prefix has at least 3 bytes
/// and fits in a token (255 bytes), before the end and before the position.
pub proof fn lemma_best_match_longest(
    c: Seq<u8>,
    head: Seq<i32>,
    prev: Seq<i32>,
    pos: int,
    k: nat,
    len: int,
)
    requires
        chains_ok(c, head, prev, pos),
        0 <= pos < c.len(),
        k < 32,
        chain_walk(prev, head[hash_at(c, pos)] as int, k) != -1,
        pos - chain_walk(prev, head[hash_at(c, pos)] as int, k) <= 65535,
        3 <= len <= 255,
        pos + len <= c.len(),
        chain_walk(prev, head[hash_at(c, pos)] as int, k) + len <= pos,
        forall|t: int|
            0 <= t < len ==> c[pos + t] == #[trigger] c[chain_walk(prev, head[hash_at(c, pos)] as int, k)
                + t],
    ensures
        best_match(c, head, prev, pos).0 >= len,
{
    lemma_hash3_value(c[pos], c[pos + 1], c[pos + 2]);
    let h = hash_at(c, pos);
    assert(0 <= h < 65536);
    lemma_chain_search_longest(c, prev, pos, head[h] as int, 0, 0, 0, k, len);
}

/// The LZ77 tokens from `pos` on, with the hash chains `head` and `prev`: the
/// chosen match when it has at least three bytes, else a literal; the positions
/// it covers are recorded in the chains.
pub open spec fn lz_parse(c: Seq<u8>, head: Seq<i32>, prev: Seq<i32>, pos: int) -> Seq<Token>
    decreases c.len() - pos,
{
    if pos < 0 || pos >= c.len() {
        Seq::empty()
    } else {
        let (bl, bd) = best_match(c, head, prev, pos);
        if bl >= 3 && pos + bl <= c.len() {
            let (h2, p2) = insert_range(c, head, prev, pos, bl as nat);
            seq![Token::Match { distance: bd as u16, length: bl as u8 }] + lz_parse(c, h2, p2, pos + bl)
        } else {
            let (h2, p2) = insert_pos(c, head, prev, pos);
            seq![Token::Literal(c[pos])] + lz_parse(c, h2, p2, pos + 1)
        }
    }
}

/// The LZ77 tokens of a block, found with empty hash chains.
pub open spec fn lz_tokens(c: Seq<u8>) -> Seq<Token> {
    lz_parse(c, Seq::new(65536, |i: int| -1i32), Seq::new(c.len(), |i: int| -1i32), 0)
}

/// Position `q` goes into the chain of hash `h`: it has three bytes, and
/// their hash is `h`.
pub open spec fn hashed_as(c: Seq<u8>, q: int, h: int) -> bool {
    0 <= q && q + 3 <= c.len() && hash_at(c, q) == h
}

/// `x` is the last position before `b` in the chain of hash `h`, or -1 when
/// there is none.
pub open spec fn latest_before(c: Seq<u8>, x: int, h: int, b: int) -> bool {
    if x == -1 {
        forall|q: int| 0 <= q < b ==> !#[trigger] hashed_as(c, q, h)
    } else {
        &&& 0 <= x < b
        &&& hashed_as(c, x, h)
        &&& forall|q: int| x < q < b ==> !#[trigger] hashed_as(c, q, h)
    }
}

/// The link stored for position `q` once the chains hold the positions
/// before `p`: the last earlier position of the same hash; -1 for the others.
pub open spec fn link_ok(c: Seq<u8>, x: int, q: int, p: int) -> bool {
    if q < p && q + 3 <= c.len() {
        latest_before(c, x, hash_at(c, q), q)
    } else {
        x == -1
    }
}

/// The hash chains hold exactly the positions before `p`: each head is the
/// last of them with its hash, and each of them links to the one before it
/// with the same hash.
pub open spec fn chains_exact(c: Seq<u8>, head: Seq<i32>, prev: Seq<i32>, p: int) -> bool {
    &&& head.len() == 65536
    &&& prev.len() == c.len()
    &&& 0 <= p <= c.len()
    &&& forall|h: int| 0 <= h < 65536 ==> #[trigger] latest_before(c, head[h] as int, h, p)
    &&& forall|q: int| 0 <= q < c.len() ==> #[trigger] link_ok(c, prev[q] as int, q, p)
}

/// The positions in the chain of hash `h` strictly between `q` and `b`.
pub open spec fn count_between(c: Seq<u8>, q: int, b: int, h: int) -> nat
    decreases b - q,
{
    if b <= q + 1 {
        0
    } else {
        count_between(c, q, b - 1, h) + if hashed_as(c, b - 1, h) {
            1nat
        } else {
            0nat
        }
    }
}

/// An earlier position `q` that the search at `p` reaches, with a match of
/// `len` bytes: it has the same hash, lies no more than 65535 bytes back with
/// fewer than 32 positions of that hash in between, and shares `len` bytes
/// with `p`, 3 to 255 of them, before the end and before `p`.
pub open spec fn reachable_match(c: Seq<u8>, p: int, q: int, len: int) -> bool {
    &&& hashed_as(c, q, hash_at(c, p))
    &&& q < p
    &&& p - q <= 65535
    &&& count_between(c, q, p, hash_at(c, p)) < 32
    &&& 3 <= len <= 255
    &&& p + len <= c.len()
    &&& q + len <= p
    &&& forall|t: int| 0 <= t < len ==> c[p + t] == #[trigger] c[q + t]
}

/// The span of input a token covers.
pub open spec fn token_span(t: Token) -> int {
    match t {
        Token::Literal(_) => 1,
        Token::Match { length, .. } => length as int,
    }
}

/// Empty chains hold exactly the positions before the start.
pub proof fn lemma_chains_start(c: Seq<u8>)
    ensures
        chains_exact(c, Seq::new(65536, |i: int| -1i32), Seq::new(c.len(), |i: int| -1i32), 0),
{
    let head = Seq::new(65536, |i: int| -1i32);
    let prev = Seq::new(c.len(), |i: int| -1i32);
    assert forall|h: int| 0 <= h < 65536 implies #[trigger] latest_before(c, head[h] as int, h, 0) by {}
    assert forall|q: int| 0 <= q < c.len() implies #[trigger] link_ok(c, prev[q] as int, q, 0) by {}
}

/// Recording position `p` keeps the chains exact, now for the positions
/// before `p + 1`.
pub proof fn lemma_insert_pos_exact(c: Seq<u8>, head: Seq<i32>, prev: Seq<i32>, p: int)
    requires
        c.len() <= BLOCK_SIZE,
        chains_exact(c, head, prev, p),
        p < c.len(),
    ensures
        chains_exact(c, insert_pos(c, head, prev, p).0, insert_pos(c, head, prev, p).1, p + 1),
{
    let (h2, p2) = insert_pos(c, head, prev, p);
    if p + 3 <= c.len() {
        lemma_hash3_value(c[p], c[p + 1], c[p + 2]);
        let h0 = hash_at(c, p);
        assert(latest_before(c, head[h0] as int, h0, p));
        assert forall|h: int| 0 <= h < 65536 implies #[trigger] latest_before(c, h2[h] as int, h, p + 1) by {
            assert(latest_before(c, head[h] as int, h, p));
            if h != h0 {
                assert(!hashed_as(c, p, h));
                assert(h2[h] == head[h]);
            }
        }
        assert forall|q: int| 0 <= q < c.len() implies #[trigger] link_ok(c, p2[q] as int, q, p + 1) by {
            assert(link_ok(c, prev[q] as int, q, p));
        }
    } else {
        assert forall|h: int| 0 <= h < 65536 implies #[trigger] latest_before(c, h2[h] as int, h, p + 1) by {
            assert(latest_before(c, head[h] as int, h, p));
            assert(!hashed_as(c, p, h));
        }
        assert forall|q: int| 0 <= q < c.len() implies #[trigger] link_ok(c, p2[q] as int, q, p + 1) by {
            assert(link_ok(c, prev[q] as int, q, p));
        }
    }
}

/// Recording `count` positions from `p` on keeps the chains exact.
pub proof fn lemma_insert_range_exact(c: Seq<u8>, head: Seq<i32>, prev: Seq<i32>, p: int, count: nat)
    requires
        c.len() <= BLOCK_SIZE,
        chains_exact(c, head, prev, p),
        p + count <= c.len(),
    ensures
        chains_exact(
            c,
            insert_range(c, head, prev, p, count).0,
            insert_range(c, head, prev, p, count).1,
            p + count,
        ),
    decreases count,
{
    if count > 0 {
        lemma_insert_pos_exact(c, head, prev, p);
        let (h2, p2) = insert_pos(c, head, prev, p);
        lemma_insert_range_exact(c, h2, p2, p + 1, (count - 1) as nat);
    }
}

proof fn lemma_exact_chains_ok(c: Seq<u8>, head: Seq<i32>, prev: Seq<i32>, p: int)
    requires
        chains_exact(c, head, prev, p),
    ensures
        chains_ok(c, head, prev, p),
{
    assert forall|h: int| 0 <= h < 65536 implies #[trigger] head[h] == -1 || (0 <= head[h] < p) by {
        assert(latest_before(c, head[h] as int, h, p));
    }
    assert forall|i: int| 0 <= i < c.len() implies #[trigger] prev[i] == -1 || (0 <= prev[i] < i) by {
        assert(link_ok(c, prev[i] as int, i, p));
    }
}

proof fn lemma_count_split(c: Seq<u8>, q: int, x: int, b: int, h: int)
    requires
        q < x < b,
        hashed_as(c, x, h),
        forall|r: int| x < r < b ==> !#[trigger] hashed_as(c, r, h),
    ensures
        count_between(c, q, b, h) == count_between(c, q, x, h) + 1,
    decreases b - x,
{
    if b > x + 1 {
        lemma_count_split(c, q, x, b - 1, h);
        assert(!hashed_as(c, b - 1, h));
    }
}

/// Walking down exact chains from the last position before `b` of hash `h`
/// reaches each earlier position `q` of that hash after as many steps as
/// there are positions of that hash between them.
proof fn lemma_walk_reaches(c: Seq<u8>, prev: Seq<i32>, x: int, h: int, b: int, q: int, p: int)
    requires
        prev.len() == c.len(),
        forall|i: int| 0 <= i < c.len() ==> #[trigger] link_ok(c, prev[i] as int, i, p),
        b <= p,
        latest_before(c, x, h, b),
        hashed_as(c, q, h),
        q < b,
    ensures
        chain_walk(prev, x, count_between(c, q, b, h)) == q,
    decreases b - q,
{
    assert(x != -1) by {
        if x == -1 {
            assert(!hashed_as(c, q, h));
        }
    }
    if x == q {
        assert(count_between(c, q, b, h) == 0) by {
            lemma_count_zero(c, q, b, h);
        }
    } else {
        assert(q < x) by {
            if x < q {
                assert(!hashed_as(c, q, h));
            }
        }
        lemma_count_split(c, q, x, b, h);
        assert(link_ok(c, prev[x] as int, x, p));
        lemma_walk_reaches(c, prev, prev[x] as int, h, x, q, p);
    }
}

proof fn lemma_count_zero(c: Seq<u8>, q: int, b: int, h: int)
    requires
        forall|r: int| q < r < b ==> !#[trigger] hashed_as(c, r, h),
    ensures
        count_between(c, q, b, h) == 0,
    decreases b - q,
{
    if b > q + 1 {
        lemma_count_zero(c, q, b - 1, h);
        assert(!hashed_as(c, b - 1, h));
    }
}

proof fn lemma_chain_search_bound(
    c: Seq<u8>,
    prev: Seq<i32>,
    pos: int,
    mp: int,
    depth: nat,
    bl: int,
    bd: int,
)
    requires
        0 <= bl <= 255,
        bl <= c.len() - pos,
    ensures
        0 <= chain_search(c, prev, pos, mp, depth, bl, bd).0 <= 255,
        chain_search(c, prev, pos, mp, depth, bl, bd).0 <= c.len() - pos,
    decreases 32 - depth,
{
    if !(mp == -1 || depth >= 32 || pos - mp > 65535) {
        let cap = match_cap(c, pos, mp);
        if cap >= 0 {
            lemma_common_len_at_least(c, pos, mp, cap, 0);
        }
        let len = match_len(c, pos, mp);
        assert(len <= 255 && len <= c.len() - pos);
        if len >= 3 && len > bl {
            if len != 255 {
                lemma_chain_search_bound(c, prev, pos, prev[mp] as int, depth + 1, len, pos - mp);
            }
        } else {
            lemma_chain_search_bound(c, prev, pos, prev[mp] as int, depth + 1, bl, bd);
        }
    }
}

#[verifier::spinoff_prover]
proof fn lemma_lz_parse_next(c: Seq<u8>, head: Seq<i32>, prev: Seq<i32>, p: int)
    requires
        c.len() <= BLOCK_SIZE,
        chains_exact(c, head, prev, p),
        p < c.len(),
    ensures
        lz_parse(c, head, prev, p).len() >= 1,
        1 <= token_span(lz_parse(c, head, prev, p)[0]),
        p + token_span(lz_parse(c, head, prev, p)[0]) <= c.len(),
        exists|h2: Seq<i32>, p2: Seq<i32>|
            #[trigger] chains_exact(c, h2, p2, p + token_span(lz_parse(c, head, prev, p)[0]))
                && lz_parse(c, head, prev, p) == seq![lz_parse(c, head, prev, p)[0]] + lz_parse(
                c,
                h2,
                p2,
                p + token_span(lz_parse(c, head, prev, p)[0]),
            ),
{
    lemma_exact_chains_ok(c, head, prev, p);
    let (bl, bd) = best_match(c, head, prev, p);
    if p + 3 <= c.len() {
        lemma_hash3_value(c[p], c[p + 1], c[p + 2]);
        lemma_chain_search_bound(c, prev, p, head[hash_at(c, p)] as int, 0, 0, 0);
    }
    assert(0 <= bl <= 255 && bl <= c.len() - p);
    let toks = lz_parse(c, head, prev, p);
    if bl >= 3 {
        let (h2, p2) = insert_range(c, head, prev, p, bl as nat);
        lemma_insert_range_exact(c, head, prev, p, bl as nat);
        let t = Token::Match { distance: bd as u16, length: bl as u8 };
        assert(toks == seq![t] + lz_parse(c, h2, p2, p + bl));
        assert(toks[0] == t);
        assert(token_span(toks[0]) == bl);
        assert(chains_exact(c, h2, p2, p + token_span(toks[0])));
    } else {
        let (h2, p2) = insert_pos(c, head, prev, p);
        lemma_insert_pos_exact(c, head, prev, p);
        let t = Token::Literal(c[p]);
        assert(toks == seq![t] + lz_parse(c, h2, p2, p + 1));
        assert(toks[0] == t);
        assert(token_span(toks[0]) == 1);
        assert(chains_exact(c, h2, p2, p + token_span(toks[0])));
    }
}

/// One token of the parse at a position where the chains hold exactly the
/// earlier positions: for every earlier position the search reaches (see
/// [`reachable_match`]) with a match of `len` bytes, the token is a match at
/// least that long. The rest of the parse goes on after the token's span,
/// with the chains exact again there.
#[verifier::spinoff_prover]
pub proof fn lemma_lz_parse_step(c: Seq<u8>, head: Seq<i32>, prev: Seq<i32>, p: int)
    requires
        c.len() <= BLOCK_SIZE,
        chains_exact(c, head, prev, p),
        p < c.len(),
    ensures
        lz_parse(c, head, prev, p).len() >= 1,
        forall|q: int, len: int|
            #[trigger] reachable_match(c, p, q, len) ==> (lz_parse(c, head, prev, p)[0] is Match
                && lz_parse(c, head, prev, p)[0]->length >= len),
        1 <= token_span(lz_parse(c, head, prev, p)[0]),
        p + token_span(lz_parse(c, head, prev, p)[0]) <= c.len(),
        exists|h2: Seq<i32>, p2: Seq<i32>|
            #[trigger] chains_exact(c, h2, p2, p + token_span(lz_parse(c, head, prev, p)[0]))
                && lz_parse(c, head, prev, p) == seq![lz_parse(c, head, prev, p)[0]] + lz_parse(
                c,
                h2,
                p2,
                p + token_span(lz_parse(c, head, prev, p)[0]),
            ),
{
    lemma_lz_parse_next(c, head, prev, p);
    assert forall|q: int, len: int| #[trigger] reachable_match(c, p, q, len) implies (lz_parse(
        c,
        head,
        prev,
        p,
    )[0] is Match && lz_parse(c, head, prev, p)[0]->length >= len) by {
        lemma_first_token_longest(c, head, prev, p, q, len);
    }
}

#[verifier::spinoff_prover]
proof fn lemma_first_token_longest(c: Seq<u8>, head: Seq<i32>, prev: Seq<i32>, p: int, q: int, len: int)
    requires
        c.len() <= BLOCK_SIZE,
        chains_exact(c, head, prev, p),
        p < c.len(),
        reachable_match(c, p, q, len),
    ensures
        lz_parse(c, head, prev, p)[0] is Match,
        lz_parse(c, head, prev, p)[0]->length >= len,
{
    lemma_exact_chains_ok(c, head, prev, p);
    let h = hash_at(c, p);
    lemma_hash3_value(c[p], c[p + 1], c[p + 2]);
    assert(latest_before(c, head[h] as int, h, p));
    lemma_walk_reaches(c, prev, head[h] as int, h, p, q, p);
    let k = count_between(c, q, p, h);
    assert(chain_walk(prev, head[h] as int, k) == q);
    lemma_best_match_longest(c, head, prev, p, k, len);
    lemma_chain_search_bound(c, prev, p, head[h] as int, 0, 0, 0);
    let (bl, bd) = best_match(c, head, prev, p);
    assert(bl >= 3 && p + bl <= c.len());
    let (h2, p2) = insert_range(c, head, prev, p, bl as nat);
    let t = Token::Match { distance: bd as u16, length: bl as u8 };
    assert(lz_parse(c, head, prev, p) == seq![t] + lz_parse(c, h2, p2, p + bl));
    assert(lz_parse(c, head, prev, p)[0] == t);
}

/// The compressed form of a block: its length and the length of its token
/// stream, each a big-endian `u32`, then the Huffman coding of the stream.
pub open spec fn compress_block(c: Seq<u8>) -> Seq<u8> {
    let stream = lz_stream(lz_tokens(c));
    u32_be(c.len() as u32) + u32_be(stream.len() as u32) + huffman_encode(stream)
}

proof fn lemma_common_len(c: Seq<u8>, pos: int, mp: int, cap: int, k: int)
    requires
        0 <= k <= cap,
        forall|j: int| 0 <= j < k ==> c[pos + j] == #[trigger] c[mp + j],
    ensures
        common_len(c, pos, mp, cap, 0) == common_len(c, pos, mp, cap, k),
    decreases k,
{
    if k > 0 {
        lemma_common_len(c, pos, mp, cap, k - 1);
        assert(c[pos + (k - 1)] == c[mp + (k - 1)]);
    }
}

/// The match chosen at `pos` (see [`best_match`]): its length and distance,
/// or (0, 0) for none.
fn find_match(chunk: &[u8], head: &Vec<i32>, prev: &Vec<i32>, pos: usize) -> (r: (usize, usize))
    requires
        chunk@.len() <= BLOCK_SIZE,
        pos < chunk@.len(),
        head@.len() == 65536,
        prev@.len() == chunk@.len(),
        forall|h: int| 0 <= h < 65536 ==> #[trigger] head@[h] == -1 || (0 <= head@[h] < pos),
        forall|i: int| 0 <= i < chunk@.len() ==> #[trigger] prev@[i] == -1 || (0 <= prev@[i] < i),
    ensures
        (r.0 as int, r.1 as int) == best_match(chunk@, head@, prev@, pos as int),
        r.0 == 0 || (MIN_MATCH_LEN <= r.0 <= MAX_MATCH_LEN && 1 <= r.1 <= pos && r.1 <= WINDOW_SIZE
            && pos + r.0 <= chunk@.len() && forall|j: int|
            0 <= j < r.0 ==> chunk@[pos + j] == #[trigger] chunk@[pos - r.1 + j]),
{
    let n = chunk.len();
    let ghost target = best_match(chunk@, head@, prev@, pos as int);
    let mut best_len: usize = 0;
    let mut best_dist: usize = 0;
    if pos + MIN_MATCH_LEN <= n {
        let hash = get_hash(vstd::slice::slice_subrange(chunk, pos, pos + MIN_MATCH_LEN));
        assert(hash == hash_at(chunk@, pos as int));
        let mut match_pos: i32 = head[hash];
        let mut depth: usize = 0;
        while match_pos != -1 && depth < MAX_CHAIN_DEPTH
            invariant_except_break
                chain_search(
                    chunk@,
                    prev@,
                    pos as int,
                    match_pos as int,
                    depth as nat,
                    best_len as int,
                    best_dist as int,
                ) == target,
            invariant
                n == chunk@.len(),
                n <= BLOCK_SIZE,
                pos + MIN_MATCH_LEN <= n,
                prev@.len() == n,
                forall|i: int| 0 <= i < n ==> #[trigger] prev@[i] == -1 || (0 <= prev@[i] < i),
                match_pos == -1 || (0 <= match_pos < pos),
                depth <= MAX_CHAIN_DEPTH,
                best_len == 0 || (MIN_MATCH_LEN <= best_len <= MAX_MATCH_LEN && 1 <= best_dist
                    <= pos && best_dist <= WINDOW_SIZE && pos + best_len <= n && forall|j: int|
                    0 <= j < best_len ==> chunk@[pos + j] == #[trigger] chunk@[pos - best_dist
                    + j]),
            ensures
                (best_len as int, best_dist as int) == target,
            decreases MAX_CHAIN_DEPTH - depth,
        {
            let dist = pos - match_pos as usize;
            if dist > WINDOW_SIZE {
                break;
            }
            let mp = match_pos as usize;
            let mut len: usize = 0;
            while pos + len + 8 <= n && mp + len + 8 <= pos && len < MAX_MATCH_LEN - 8
                invariant
                    n == chunk@.len(),
                    n <= BLOCK_SIZE,
                    mp < pos,
                    len <= MAX_MATCH_LEN - 1,
                    mp + len <= pos,
                    pos + len <= n,
                    forall|j: int| 0 <= j < len ==> chunk@[pos + j] == #[trigger] chunk@[mp + j],
                decreases MAX_MATCH_LEN - len,
            {
                let k = common_prefix_8(chunk, pos + len, mp + len);
                proof {
                    assert forall|j: int| 0 <= j < len + k implies chunk@[pos + j]
                        == #[trigger] chunk@[mp + j] by {
                        if j >= len {
                            assert(chunk@[(pos + len) + (j - len)] == chunk@[(mp + len) + (j
                                - len)]);
                        }
                    }
                }
                len = len + k;
                if k < 8 {
                    break;
                }
            }
            while pos + len < n && mp + len < pos && len < MAX_MATCH_LEN
                invariant
                    n == chunk@.len(),
                    n <= BLOCK_SIZE,
                    mp < pos,
                    len <= MAX_MATCH_LEN,
                    mp + len <= pos,
                    pos + len <= n,
                    forall|j: int| 0 <= j < len ==> chunk@[pos + j] == #[trigger] chunk@[mp + j],
                ensures
                    len == match_cap(chunk@, pos as int, mp as int) || (pos + len < n && mp + len
                        < pos && chunk@[pos + len] != chunk@[mp + len]),
                decreases MAX_MATCH_LEN - len,
            {
                if chunk[pos + len] == chunk[mp + len] {
                    len = len + 1;
                } else {
                    break;
                }
            }
            proof {
                let cap = match_cap(chunk@, pos as int, mp as int);
                lemma_common_len(chunk@, pos as int, mp as int, cap, len as int);
                assert(len == match_len(chunk@, pos as int, mp as int));
            }
            if len >= MIN_MATCH_LEN && len > best_len {
                best_len = len;
                best_dist = dist;
                assert(forall|j: int|
                    0 <= j < best_len ==> chunk@[pos + j] == #[trigger] chunk@[mp + j]);
                assert(pos - best_dist == mp);
                if len == MAX_MATCH_LEN {
                    break;
                }
            }
            match_pos = prev[mp];
            depth = depth + 1;
        }
    }
    (best_len, best_dist)
}

/// Records the `count` positions from `from` on in the hash chains (see
/// [`insert_range`]).
fn record_positions(chunk: &[u8], head: &mut Vec<i32>, prev: &mut Vec<i32>, from: usize, count: usize)
    requires
        chunk@.len() <= BLOCK_SIZE,
        from + count <= chunk@.len(),
        old(head)@.len() == 65536,
        old(prev)@.len() == chunk@.len(),
        forall|h: int| 0 <= h < 65536 ==> #[trigger] old(head)@[h] == -1 || (0 <= old(head)@[h] < from),
        forall|i: int|
            0 <= i < chunk@.len() ==> #[trigger] old(prev)@[i] == -1 || (0 <= old(prev)@[i] < i),
    ensures
        (final(head)@, final(prev)@) == insert_range(
            chunk@,
            old(head)@,
            old(prev)@,
            from as int,
            count as nat,
        ),
        final(head)@.len() == 65536,
        final(prev)@.len() == chunk@.len(),
        forall|h: int|
            0 <= h < 65536 ==> #[trigger] final(head)@[h] == -1 || (0 <= final(head)@[h] < from + count),
        forall|i: int|
            0 <= i < chunk@.len() ==> #[trigger] final(prev)@[i] == -1 || (0 <= final(prev)@[i] < i),
{
    let n = chunk.len();
    let ghost head0 = head@;
    let ghost prev0 = prev@;
    let mut offset: usize = 0;
    while offset < count
        invariant
            n == chunk@.len(),
            n <= BLOCK_SIZE,
            from + count <= n,
            offset <= count,
            head@.len() == 65536,
            prev@.len() == n,
            forall|h: int| 0 <= h < 65536 ==> #[trigger] head@[h] == -1 || (0 <= head@[h] < from + offset),
            forall|i: int| 0 <= i < n ==> #[trigger] prev@[i] == -1 || (0 <= prev@[i] < i),
            insert_range(chunk@, head0, prev0, from as int, count as nat) == insert_range(
                chunk@,
                head@,
                prev@,
                from + offset,
                (count - offset) as nat,
            ),
        decreases count - offset,
    {
        let insert_at = from + offset;
        let ghost h_before = head@;
        let ghost p_before = prev@;
        if insert_at + MIN_MATCH_LEN <= n {
            let bytes = vstd::slice::slice_subrange(chunk, insert_at, insert_at + MIN_MATCH_LEN);
            let hash = get_hash(bytes);
            assert(hash == hash_at(chunk@, insert_at as int));
            let h = head[hash];
            prev.set(insert_at, h);
            head.set(hash, insert_at as i32);
        }
        assert((head@, prev@) == insert_pos(chunk@, h_before, p_before, insert_at as int));
        offset = offset + 1;
    }
}

/// Compresses one block: LZ77 tokens found through hash chains, stored in
/// groups of eight, then Huffman-coded, behind the block's uncompressed length
/// and token stream length. Decompressing the block gives `chunk` back.
#[verifier::rlimit(50)]
#[verifier::spinoff_prover]
pub fn compress_single_block(chunk: &[u8]) -> (block: Vec<u8>)
    requires
        chunk@.len() <= BLOCK_SIZE,
    ensures
        decompress_block_spec(block@) == Ok::<Seq<u8>, DecodeError>(chunk@),
        block@.len() <= 12 * chunk@.len() + 10,
        block@ == compress_block(chunk@),
        tokens_ok(Seq::empty(), lz_tokens(chunk@)),
        matches_long_enough(lz_tokens(chunk@)),
        replay(Seq::empty(), lz_tokens(chunk@)) == chunk@,
{
    let n = chunk.len();
    let mut lz77_buf: Vec<u8> = Vec::new();
    let mut head: Vec<i32> = vec![-1i32; 65536];
    let mut prev: Vec<i32> = vec![-1i32; chunk.len()];
    let mut pos: usize = 0;
    let mut token_buffer: Vec<Token> = Vec::with_capacity(8);
    let ghost mut flushed: Seq<Token> = Seq::empty();
    let ghost mut buf_start: nat = 0;
    proof {
        assert(head@ =~= Seq::new(65536, |i: int| -1i32));
        assert(prev@ =~= Seq::new(n as nat, |i: int| -1i32));
        assert(flushed + token_buffer@ =~= Seq::<Token>::empty());
        assert(Seq::<Token>::empty() + lz_tokens(chunk@) =~= lz_tokens(chunk@));
        assert(chunk@.take(0) =~= Seq::<u8>::empty());
        assert(lz_stream(flushed) =~= Seq::<u8>::empty());
        assert(tokens_bytes(token_buffer@) =~= Seq::<u8>::empty());
    }
    while pos < n
        invariant
            n == chunk@.len(),
            n <= BLOCK_SIZE,
            pos <= n,
            head@.len() == 65536,
            prev@.len() == n,
            forall|h: int| 0 <= h < 65536 ==> #[trigger] head@[h] == -1 || (0 <= head@[h] < pos),
            forall|i: int| 0 <= i < n ==> #[trigger] prev@[i] == -1 || (0 <= prev@[i] < i),
            token_buffer@.len() < 8,
            flushed.len() % 8 == 0,
            lz77_buf@ == lz_stream(flushed),
            tokens_ok(Seq::empty(), flushed + token_buffer@),
            matches_long_enough(flushed + token_buffer@),
            replay(Seq::empty(), flushed + token_buffer@) == chunk@.take(pos as int),
            buf_start <= pos,
            lz77_buf@.len() <= 2 * buf_start,
            tokens_bytes(token_buffer@).len() <= pos - buf_start,
            token_buffer@.len() > 0 ==> buf_start < pos,
            flushed + token_buffer@ + lz_parse(chunk@, head@, prev@, pos as int) == lz_tokens(chunk@),
        decreases n - pos,
    {
        let (best_len, best_dist) = find_match(chunk, &head, &prev, pos);
        let ghost toks = flushed + token_buffer@;
        let ghost done = chunk@.take(pos as int);
        let ghost head0 = head@;
        let ghost prev0 = prev@;
        let ghost pos0 = pos as int;
        if best_len >= MIN_MATCH_LEN {
            let tok = Token::Match { distance: best_dist as u16, length: best_len as u8 };
            proof {
                lemma_copy_match_rebuilds(chunk@, pos as nat, best_dist as nat, best_len as nat);
                lemma_replay_push(Seq::empty(), toks, tok);
                lemma_tokens_bytes_push(token_buffer@, tok);
                lemma_u16_be(best_dist as u16);
            }
            token_buffer.push(tok);
            assert(flushed + token_buffer@ =~= toks.push(tok));
            record_positions(chunk, &mut head, &mut prev, pos, best_len);
            pos = pos + best_len;
            proof {
                let rest = lz_parse(chunk@, head@, prev@, pos as int);
                assert(lz_parse(chunk@, head0, prev0, pos0) == seq![tok] + rest);
                assert(toks + (seq![tok] + rest) =~= toks.push(tok) + rest);
            }
        } else {
            let tok = Token::Literal(chunk[pos]);
            proof {
                lemma_replay_push(Seq::empty(), toks, tok);
                lemma_tokens_bytes_push(token_buffer@, tok);
                assert(chunk@.take(pos + 1) =~= done.push(chunk@[pos as int]));
            }
            token_buffer.push(tok);
            assert(flushed + token_buffer@ =~= toks.push(tok));
            record_positions(chunk, &mut head, &mut prev, pos, 1);
            proof {
                reveal_with_fuel(insert_range, 2);
            }
            assert((head@, prev@) == insert_pos(chunk@, head0, prev0, pos as int));
            pos = pos + 1;
            proof {
                let rest = lz_parse(chunk@, head@, prev@, pos as int);
                assert(lz_parse(chunk@, head0, prev0, pos0) == seq![tok] + rest);
                assert(toks + (seq![tok] + rest) =~= toks.push(tok) + rest);
            }
        }
        if token_buffer.len() == 8 {
            write_block(&mut lz77_buf, token_buffer.as_slice());
            proof {
                lemma_lz_stream_append(flushed, token_buffer@);
                lemma_lz_stream_group(token_buffer@);
                flushed = flushed + token_buffer@;
                buf_start = pos as nat;
            }
            token_buffer.clear();
            proof {
                assert(flushed + token_buffer@ =~= flushed);
                assert(tokens_bytes(token_buffer@) =~= Seq::<u8>::empty());
            }
        }
    }
    let ghost all = flushed + token_buffer@;
    if token_buffer.len() > 0 {
        write_block(&mut lz77_buf, token_buffer.as_slice());
        proof {
            lemma_lz_stream_append(flushed, token_buffer@);
            lemma_lz_stream_group(token_buffer@);
        }
    } else {
        assert(all =~= flushed);
    }
    assert(lz77_buf@ == lz_stream(all));
    assert(lz77_buf@.len() <= 2 * n);
    assert(all == lz_tokens(chunk@)) by {
        assert(all + Seq::<Token>::empty() =~= all);
    }
    let mut block_payload: Vec<u8> = Vec::new();
    push_u32_be(&mut block_payload, n as u32);
    push_u32_be(&mut block_payload, lz77_buf.len() as u32);
    proof {
        lemma_short_data_shallow_tree(lz77_buf@);
    }
    let mut encoded = encode(lz77_buf.as_slice());
    let ghost enc = encoded@;
    block_payload.append(&mut encoded);
    proof {
        let b = block_payload@;
        lemma_u32_be(n as u32);
        lemma_u32_be(lz77_buf@.len() as u32);
        assert(b.subrange(0, 4) =~= u32_be(n as u32));
        assert(b.subrange(4, 8) =~= u32_be(lz77_buf@.len() as u32));
        assert(b.skip(8) =~= enc);
        assert(chunk@.take(n as int) =~= chunk@);
        assert(lz77_buf@.subrange(0, lz_stream(all).len() as int) =~= lz_stream(all));
        lemma_groups_decode(lz77_buf@, 0, Seq::empty(), n as nat, all);
        assert(b.subrange(4, 8) == u32_be(lz_stream(all).len() as u32));
        assert(b =~= u32_be(n as u32) + u32_be(lz77_buf@.len() as u32) + enc);
    }
    block_payload
}

/// The index of block sizes: the length of each block as a big-endian `u32`.
pub open spec fn sizes_bytes(bs: Seq<Seq<u8>>) -> Seq<u8>
    decreases bs.len(),
{
    if bs.len() == 0 {
        Seq::empty()
    } else {
        sizes_bytes(bs.drop_last()) + u32_be(bs.last().len() as u32)
    }
}

/// How a compressed file is stored: the header, the number of blocks, the
/// size of each block, then the blocks; counts and sizes are big-endian `u32`s.
pub open spec fn archive_bytes(h: FileHeader, bs: Seq<Seq<u8>>) -> Seq<u8> {
    header_bytes(h) + u32_be(bs.len() as u32) + sizes_bytes(bs) + concat_blocks(bs)
}

proof fn lemma_sizes_bytes(bs: Seq<Seq<u8>>)
    ensures
        sizes_bytes(bs).len() == 4 * bs.len(),
        forall|i: int|
            0 <= i < bs.len() ==> #[trigger] sizes_bytes(bs).subrange(4 * i, 4 * i + 4) == u32_be(
                bs[i].len() as u32,
            ),
    decreases bs.len(),
{
    if bs.len() > 0 {
        let init = bs.drop_last();
        lemma_sizes_bytes(init);
        let s = sizes_bytes(bs);
        assert forall|i: int| 0 <= i < bs.len() implies #[trigger] s.subrange(4 * i, 4 * i + 4)
            == u32_be(bs[i].len() as u32) by {
            if i < init.len() {
                assert(s.subrange(4 * i, 4 * i + 4) =~= sizes_bytes(init).subrange(4 * i, 4 * i + 4));
            } else {
                assert(s.subrange(4 * i, 4 * i + 4) =~= u32_be(bs.last().len() as u32));
            }
        }
    }
}

proof fn lemma_concat_blocks(bs: Seq<Seq<u8>>, i: int)
    requires
        0 <= i < bs.len(),
    ensures
        concat_blocks(bs.take(i)).len() + bs[i].len() == concat_blocks(bs.take(i + 1)).len(),
        concat_blocks(bs.take(i + 1)).len() <= concat_blocks(bs).len(),
        concat_blocks(bs).subrange(
            concat_blocks(bs.take(i)).len() as int,
            (concat_blocks(bs.take(i)).len() + bs[i].len()) as int,
        ) == bs[i],
    decreases bs.len(),
{
    assert(bs.take(i + 1).drop_last() =~= bs.take(i));
    if i == bs.len() - 1 {
        assert(bs.take(i + 1) =~= bs);
        assert(concat_blocks(bs).subrange(
            concat_blocks(bs.take(i)).len() as int,
            (concat_blocks(bs.take(i)).len() + bs[i].len()) as int,
        ) =~= bs[i]);
    } else {
        let init = bs.drop_last();
        lemma_concat_blocks(init, i);
        assert(init.take(i) =~= bs.take(i));
        assert(init.take(i + 1) =~= bs.take(i + 1));
        let c = concat_blocks(bs);
        assert(c == concat_blocks(init) + bs.last());
        assert(c.subrange(
            concat_blocks(bs.take(i)).len() as int,
            (concat_blocks(bs.take(i)).len() + bs[i].len()) as int,
        ) =~= concat_blocks(init).subrange(
            concat_blocks(bs.take(i)).len() as int,
            (concat_blocks(bs.take(i)).len() + bs[i].len()) as int,
        ));
    }
}

proof fn lemma_prefix_sum_concat(bs: Seq<Seq<u8>>, sizes: Seq<nat>, k: nat)
    requires
        k <= bs.len(),
        sizes.len() == bs.len(),
        forall|i: int| 0 <= i < bs.len() ==> #[trigger] sizes[i] == bs[i].len(),
    ensures
        prefix_sum(sizes, k) == concat_blocks(bs.take(k as int)).len(),
    decreases k,
{
    if k == 0 {
        assert(bs.take(0) =~= Seq::<Seq<u8>>::empty());
    } else {
        lemma_prefix_sum_concat(bs, sizes, (k - 1) as nat);
        lemma_concat_blocks(bs, k - 1);
    }
}

/// A stored compressed file splits back into its header and its blocks.
pub proof fn lemma_archive_roundtrip(h: FileHeader, bs: Seq<Seq<u8>>)
    requires
        bs.len() <= u32::MAX,
        forall|i: int| 0 <= i < bs.len() ==> #[trigger] bs[i].len() <= u32::MAX,
    ensures
        parse_archive(archive_bytes(h, bs)) == Ok::<(FileHeader, Seq<Seq<u8>>), DecodeError>((h, bs)),
{
    let a = archive_bytes(h, bs);
    let sb = sizes_bytes(bs);
    let cb = concat_blocks(bs);
    lemma_header_roundtrip(h, u32_be(bs.len() as u32) + sb + cb);
    assert(a =~= header_bytes(h) + (u32_be(bs.len() as u32) + sb + cb));
    lemma_u32_be(bs.len() as u32);
    lemma_sizes_bytes(bs);
    assert(a.subrange(18, 22) =~= u32_be(bs.len() as u32));
    let nb = bs.len();
    let base = 22 + 4 * nb;
    let sizes = block_sizes(a, nb);
    assert forall|i: int| 0 <= i < nb implies #[trigger] sizes[i] == bs[i].len() by {
        assert(a.subrange(22 + 4 * i, 26 + 4 * i) =~= sb.subrange(4 * i, 4 * i + 4));
        lemma_u32_be(bs[i].len() as u32);
    }
    lemma_prefix_sum_concat(bs, sizes, nb);
    assert(bs.take(nb as int) =~= bs);
    assert(a.len() == base + cb.len());
    let parsed = Seq::new(nb, |i: int| block_at(a, base, sizes, i as nat));
    assert forall|i: int| 0 <= i < nb implies #[trigger] parsed[i] == bs[i] by {
        lemma_prefix_sum_concat(bs, sizes, i as nat);
        lemma_concat_blocks(bs, i);
        let off = concat_blocks(bs.take(i)).len();
        assert(block_at(a, base, sizes, i as nat) =~= cb.subrange(off as int, (off + bs[i].len()) as int));
    }
    assert(parsed =~= bs);
}

/// A stored compressed file cut short anywhere fails for want of bytes.
pub proof fn lemma_archive_prefix_truncated(h: FileHeader, bs: Seq<Seq<u8>>, k: int)
    requires
        bs.len() <= u32::MAX,
        forall|i: int| 0 <= i < bs.len() ==> #[trigger] bs[i].len() <= u32::MAX,
        0 <= k < archive_bytes(h, bs).len(),
    ensures
        parse_archive(archive_bytes(h, bs).take(k)) == Err::<(FileHeader, Seq<Seq<u8>>), DecodeError>(
            DecodeError::UnexpectedEof,
        ),
        decompress_spec(archive_bytes(h, bs).take(k)) == Err::<Seq<u8>, DecodeError>(
            DecodeError::UnexpectedEof,
        ),
{
    let a = archive_bytes(h, bs);
    let p = a.take(k);
    let sb = sizes_bytes(bs);
    let cb = concat_blocks(bs);
    lemma_header_roundtrip(h, u32_be(bs.len() as u32) + sb + cb);
    assert(a =~= header_bytes(h) + (u32_be(bs.len() as u32) + sb + cb));
    lemma_u32_be(bs.len() as u32);
    lemma_sizes_bytes(bs);
    let nb = bs.len();
    let base = 22 + 4 * nb;
    let sizes = block_sizes(a, nb);
    assert forall|i: int| 0 <= i < nb implies #[trigger] sizes[i] == bs[i].len() by {
        assert(a.subrange(22 + 4 * i, 26 + 4 * i) =~= sb.subrange(4 * i, 4 * i + 4));
        lemma_u32_be(bs[i].len() as u32);
    }
    lemma_prefix_sum_concat(bs, sizes, nb);
    assert(bs.take(nb as int) =~= bs);
    assert(a.len() == base + prefix_sum(sizes, nb));
    if k >= 4 {
        assert(p.take(4) =~= a.take(4));
    }
    if k >= 22 {
        assert(a.subrange(18, 22) =~= u32_be(bs.len() as u32));
        assert(p.subrange(18, 22) =~= a.subrange(18, 22));
    }
    if k >= base {
        assert forall|i: int| 0 <= i < nb implies #[trigger] block_sizes(p, nb)[i] == sizes[i] by {
            assert(p.subrange(22 + 4 * i, 26 + 4 * i) =~= a.subrange(22 + 4 * i, 26 + 4 * i));
        }
        assert(block_sizes(p, nb) =~= sizes);
    }
}

/// Stores a compressed file (see [`archive_bytes`]).
pub fn assemble_archive(header: &FileHeader, blocks: &Vec<Vec<u8>>) -> (archive: Vec<u8>)
    requires
        blocks@.len() <= u32::MAX,
        forall|i: int| 0 <= i < blocks@.len() ==> #[trigger] blocks@[i]@.len() <= u32::MAX,
    ensures
        archive@ == archive_bytes(*header, blocks@.map_values(|b: Vec<u8>| b@)),
{
    let ghost bs = blocks@.map_values(|b: Vec<u8>| b@);
    let mut out = header.to_bytes();
    push_u32_be(&mut out, blocks.len() as u32);
    let ghost start = out@;
    let mut i: usize = 0;
    assert(sizes_bytes(bs.take(0)) =~= Seq::<u8>::empty());
    assert(start + Seq::<u8>::empty() =~= start);
    while i < blocks.len()
        invariant
            bs == blocks@.map_values(|b: Vec<u8>| b@),
            forall|i: int| 0 <= i < blocks@.len() ==> #[trigger] blocks@[i]@.len() <= u32::MAX,
            i <= blocks@.len(),
            out@ == start + sizes_bytes(bs.take(i as int)),
        decreases blocks@.len() - i,
    {
        let size = blocks[i].len() as u32;
        push_u32_be(&mut out, size);
        assert(bs.take(i + 1).drop_last() =~= bs.take(i as int));
        assert(out@ =~= start + sizes_bytes(bs.take(i + 1)));
        i = i + 1;
    }
    assert(bs.take(bs.len() as int) =~= bs);
    let ghost mid = out@;
    let mut k: usize = 0;
    assert(concat_blocks(bs.take(0)) =~= Seq::<u8>::empty());
    assert(mid + Seq::<u8>::empty() =~= mid);
    while k < blocks.len()
        invariant
            bs == blocks@.map_values(|b: Vec<u8>| b@),
            k <= blocks@.len(),
            out@ == mid + concat_blocks(bs.take(k as int)),
        decreases blocks@.len() - k,
    {
        let block = &blocks[k];
        let ghost before = out@;
        let mut j: usize = 0;
        while j < block.len()
            invariant
                j <= block@.len(),
                out@ == before + block@.take(j as int),
            decreases block@.len() - j,
        {
            out.push(block[j]);
            assert(out@ =~= before + block@.take(j + 1));
            j = j + 1;
        }
        assert(block@.take(block@.len() as int) =~= block@);
        assert(bs.take(k + 1).drop_last() =~= bs.take(k as int));
        assert(out@ =~= mid + concat_blocks(bs.take(k + 1)));
        k = k + 1;
    }
    assert(out@ =~= archive_bytes(*header, bs));
    out
}

/// Stores the compressed blocks of `input` behind the header that describes
/// it: version 1, the input's length and its CRC32 checksum (see
/// [`archive_bytes`]).
pub fn finish_archive(input: &[u8], blocks: &Vec<Vec<u8>>) -> (archive: Vec<u8>)
    requires
        blocks@.len() <= u32::MAX,
        forall|i: int| 0 <= i < blocks@.len() ==> #[trigger] blocks@[i]@.len() <= u32::MAX,
    ensures
        archive@ == archive_bytes(
            (FileHeader { version: 1, original_size: input@.len() as u64, checksum: crc32_of(input@) }),
            blocks@.map_values(|b: Vec<u8>| b@),
        ),
{
    let header = FileHeader { version: 1, original_size: input.len() as u64, checksum: checksum(input) };
    assemble_archive(&header, &blocks)
}

/// Block `i` of the input: the `BLOCK_SIZE` bytes from `i * BLOCK_SIZE` on, or
/// the bytes left at the end.
pub open spec fn chunk_of(input: Seq<u8>, i: int) -> Seq<u8> {
    let start = i * BLOCK_SIZE;
    let end = if start + BLOCK_SIZE < input.len() {
        start + BLOCK_SIZE
    } else {
        input.len() as int
    };
    input.subrange(start, end)
}

/// The number of blocks an input of `n` bytes is cut into.
pub open spec fn num_chunks(n: nat) -> nat {
    ((n + BLOCK_SIZE - 1) / (BLOCK_SIZE as int)) as nat
}

/// Compresses `input` into a compressed file: the header (version 1, the
/// input's length, its CRC32 checksum), then the input cut into blocks of
/// [`BLOCK_SIZE`] bytes, each compressed on its own. Decompressing the file
/// gives `input` back.
#[verifier::rlimit(50)]
#[verifier::spinoff_prover]
pub fn compress(input: &[u8]) -> (archive: Vec<u8>)
    requires
        input@.len() / (BLOCK_SIZE as nat) < u32::MAX,
    ensures
        decompress_spec(archive@) == Ok::<Seq<u8>, DecodeError>(input@),
        parse_header(archive@) == Ok::<FileHeader, DecodeError>(
            FileHeader {
                version: 1,
                original_size: input@.len() as u64,
                checksum: crc32_of(input@),
            },
        ),
        parse_archive(archive@) matches Ok((h, bs)) && bs.len() == num_chunks(input@.len()) && forall|i: int|
            0 <= i < bs.len() ==> decompress_block_spec(#[trigger] bs[i]) == Ok::<
                Seq<u8>,
                DecodeError,
            >(chunk_of(input@, i)),
        archive@ == archive_bytes(
            (FileHeader { version: 1, original_size: input@.len() as u64, checksum: crc32_of(input@) }),
            Seq::new(num_chunks(input@.len()), |i: int| compress_block(chunk_of(input@, i))),
        ),
        forall|i: int|
            0 <= i < num_chunks(input@.len()) ==> #[trigger] compress_block(chunk_of(input@, i)).len()
                <= 12 * BLOCK_SIZE + 10,
        forall|k: int|
            0 <= k < archive@.len() ==> decompress_spec(#[trigger] archive@.take(k)) == Err::<
                Seq<u8>,
                DecodeError,
            >(DecodeError::UnexpectedEof),
{
    let n = input.len();
    let mut blocks: Vec<Vec<u8>> = Vec::new();
    let mut start: usize = 0;
    assert(input@.take(0) =~= Seq::<u8>::empty());
    assert(blocks@.map_values(|b: Vec<u8>| b@) =~= Seq::<Seq<u8>>::empty());
    while start < n
        invariant
            n == input@.len(),
            start <= n,
            start < n ==> start == blocks@.len() * BLOCK_SIZE,
            start <= blocks@.len() * BLOCK_SIZE,
            blocks@.len() == 0 || blocks@.len() * BLOCK_SIZE < start + BLOCK_SIZE,
            decompress_blocks(blocks@.map_values(|b: Vec<u8>| b@)) == Ok::<Seq<u8>, DecodeError>(
                input@.take(start as int),
            ),
            forall|i: int| 0 <= i < blocks@.len() ==> #[trigger] blocks@[i]@.len() <= 12 * BLOCK_SIZE + 10,
            forall|i: int|
                0 <= i < blocks@.len() ==> #[trigger] blocks@[i]@ == compress_block(chunk_of(input@, i)),
            forall|i: int|
                0 <= i < blocks@.len() ==> decompress_block_spec(#[trigger] blocks@[i]@) == Ok::<
                    Seq<u8>,
                    DecodeError,
                >(chunk_of(input@, i)),
        decreases n - start,
    {
        let end = if n - start > BLOCK_SIZE {
            start + BLOCK_SIZE
        } else {
            n
        };
        let chunk = vstd::slice::slice_subrange(input, start, end);
        let block = compress_single_block(chunk);
        let ghost old_bs = blocks@.map_values(|b: Vec<u8>| b@);
        blocks.push(block);
        proof {
            let bs = blocks@.map_values(|b: Vec<u8>| b@);
            assert(bs.drop_last() =~= old_bs);
            assert(bs.last() == block@);
            assert(input@.take(end as int) =~= input@.take(start as int) + chunk@);
            assert(chunk@ =~= chunk_of(input@, old_bs.len() as int));
        }
        start = end;
    }
    assert(input@.take(n as int) =~= input@);
    let ghost header = FileHeader { version: 1, original_size: n as u64, checksum: crc32_of(input@) };
    proof {
        let nb = blocks@.len();
        if nb > 0 {
            assert((nb - 1) * BLOCK_SIZE < n) by (nonlinear_arith)
                requires
                    nb * BLOCK_SIZE < n + BLOCK_SIZE,
                    BLOCK_SIZE == 131072,
            ;
            assert(nb * BLOCK_SIZE >= n);
            assert(nb == num_chunks(n as nat)) by (nonlinear_arith)
                requires
                    (nb - 1) * BLOCK_SIZE < n,
                    nb * BLOCK_SIZE >= n,
                    nb >= 1,
                    BLOCK_SIZE == 131072,
            ;
            assert(nb * BLOCK_SIZE < n + BLOCK_SIZE);
            assert(nb <= (n as nat) / (BLOCK_SIZE as nat) + 1) by (nonlinear_arith)
                requires
                    nb * BLOCK_SIZE < n + BLOCK_SIZE,
                    BLOCK_SIZE == 131072,
            ;
        }
    }
    let archive = finish_archive(input, &blocks);
    proof {
        let bs = blocks@.map_values(|b: Vec<u8>| b@);
        assert(bs =~= Seq::new(num_chunks(input@.len()), |i: int| compress_block(chunk_of(input@, i))));
        lemma_archive_roundtrip(header, bs);
        lemma_header_roundtrip(
            header,
            u32_be(bs.len() as u32) + sizes_bytes(bs) + concat_blocks(bs),
        );
        assert(archive@ =~= header_bytes(header) + (u32_be(bs.len() as u32) + sizes_bytes(bs)
            + concat_blocks(bs)));
        assert forall|k: int| 0 <= k < archive@.len() implies decompress_spec(#[trigger] archive@.take(k))
            == Err::<Seq<u8>, DecodeError>(DecodeError::UnexpectedEof) by {
            lemma_archive_prefix_truncated(header, bs, k);
        }
        assert forall|i: int| 0 <= i < num_chunks(input@.len()) implies #[trigger] compress_block(
            chunk_of(input@, i),
        ).len() <= 12 * BLOCK_SIZE + 10 by {
            assert(bs[i] == blocks@[i]@);
        }
    }
    archive
}

} // verus!
