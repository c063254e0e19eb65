//! Bit-level writing and reading, and the Huffman stage of the compressor.
use vstd::prelude::*;
use crate::bits::{
    bit_of, byte_bits, bytes_to_bits, lemma_append_bits, lemma_bytes_to_bits_injective, lemma_byte_buffer,
    lemma_bytes_to_bits_empty,
    lemma_bytes_to_bits_len, lemma_bytes_to_bits_push, lemma_bytes_to_bits_skip, lemma_code_step,
    lemma_mask_bits, lemma_one_bit, lemma_pad_byte, lemma_set_bit, lemma_split_low_bit,
    lemma_split_low_byte, low_bits, pad_len, padded, zero_bits,
};
use crate::code::{
    HuffmanNode, balanced, child_max, code_path, code_paths, entry_for, fib, has_leaf,
    huffman_decode, leaf_count, lemma_balanced_weight, lemma_byte_of_bits, lemma_code_paths_len,
    lemma_code_paths_push, lemma_fib_35, lemma_fib_monotone, lemma_join_balanced,
    lemma_parse_tree_bits, lemma_parse_tree_suffix, lemma_sum_freq_le, lemma_sum_freq_update,
    lemma_sum_freq_zero, lemma_tree_bits_len, lemma_walk_code_paths, parse_tree, reaches,
    sum_freq, tree_bits, tree_depth, walk, walk_n, weight,
};
use crate::error::DecodeError;
use crate::huffman_tree::{
    HeapItem, assign_codes, first_min, first_min_upto, freq_of, heap_inv, huffman_encode,
    huffman_tree, join_all, join_two, leaf_items, lemma_bits_to_bytes, lemma_first_min_upto,
    lemma_freq_of, lemma_huffman_tree, lemma_join_lightest, lemma_leaf_items,
    lemma_short_data_shallow_tree,
};

verus! {

/// Zero shifted by zero is zero.
proof fn lemma_zero_shifts()
    by (bit_vector)
    ensures
        0u64 >> 0u64 == 0,
        (0u8 as u64) >> (0u8 as u64) == 0,
        (0u32 as u64) >> (0u8 as u64) == 0,
{
}

/// Packs bits, least significant first, into bytes appended to a byte vector.
pub struct BitWriter {
    inner: Vec<u8>,
    buffer: u64,
    bits_buffered: u8,
}

impl BitWriter {
    /// Fewer than eight bits wait in the buffer, and nothing stands above them.
    pub closed spec fn wf(&self) -> bool {
        &&& self.bits_buffered < 8
        &&& self.buffer >> (self.bits_buffered as u64) == 0
    }

    /// Every bit the writer holds: those already packed into bytes, then those
    /// still waiting in the buffer.
    pub closed spec fn bits(&self) -> Seq<bool> {
        bytes_to_bits(self.inner@) + low_bits(self.buffer, self.bits_buffered as nat)
    }

    /// The bytes written out so far.
    pub closed spec fn bytes(&self) -> Seq<u8> {
        self.inner@
    }

    /// The bits that wait in the buffer for a byte to complete.
    pub closed spec fn pending(&self) -> Seq<bool> {
        low_bits(self.buffer, self.bits_buffered as nat)
    }

    /// Every complete byte is written out: the bits are the bytes written out,
    /// then fewer than eight pending bits.
    pub open spec fn packed(&self) -> bool {
        &&& self.bits() == bytes_to_bits(self.bytes()) + self.pending()
        &&& self.pending().len() < 8
    }

    /// A writer that appends to `inner`.
    pub fn new(inner: Vec<u8>) -> (w: Self)
        ensures
            w.wf(),
            w.packed(),
            w.pending().len() == 0,
            w.bytes() == inner@,
            w.bits() == bytes_to_bits(inner@),
    {
        let w = BitWriter { inner, buffer: 0, bits_buffered: 0 };
        proof {
            lemma_zero_shifts();
        }
        assert(low_bits(0, 0) =~= Seq::<bool>::empty());
        assert(w.bits() =~= bytes_to_bits(inner@));
        w
    }

    /// Appends the `bits` low bits of `value`, least significant first.
    pub fn write_bits(&mut self, value: u32, bits: u8)
        requires
            old(self).wf(),
            bits <= 32,
        ensures
            final(self).wf(),
            final(self).packed(),
            final(self).bits() == old(self).bits() + low_bits(value as u64, bits as nat),
            final(self).bytes().len() >= old(self).bytes().len(),
            final(self).bytes().subrange(0, old(self).bytes().len() as int) == old(self).bytes(),
    {
        let ghost old_bytes = self.inner@;
        let ghost target = self.bits() + low_bits(value as u64, bits as nat);
        let mask: u32 = if bits == 32 {
            0xFFFFFFFF
        } else {
            assert(1u32 << bits >= 1) by (bit_vector)
                requires
                    bits < 32,
            ;
            (1u32 << bits) - 1
        };
        proof {
            lemma_mask_bits(value, bits);
        }
        let value = (value & mask) as u64;
        proof {
            lemma_append_bits(self.buffer, value, self.bits_buffered as u64, bits as u64);
        }
        self.buffer = self.buffer | (value << self.bits_buffered);
        self.bits_buffered = self.bits_buffered + bits;
        assert(self.bits() =~= target);
        while self.bits_buffered >= 8
            invariant
                self.bits_buffered <= 40,
                self.buffer >> (self.bits_buffered as u64) == 0,
                self.bits() == target,
                self.inner@.len() >= old_bytes.len(),
                self.inner@.subrange(0, old_bytes.len() as int) == old_bytes,
            decreases self.bits_buffered,
        {
            proof {
                lemma_split_low_byte(self.buffer, self.bits_buffered as u64);
                lemma_bytes_to_bits_push(self.inner@, (self.buffer & 0xff) as u8);
            }
            let byte = (self.buffer & 0xFF) as u8;
            self.inner.push(byte);
            self.buffer = self.buffer >> 8;
            self.bits_buffered = self.bits_buffered - 8;
            assert(self.bits() =~= target);
            assert(self.inner@.subrange(0, old_bytes.len() as int) =~= old_bytes);
        }
    }

    /// Appends one bit.
    pub fn write_bit(&mut self, bit: bool)
        requires
            old(self).wf(),
        ensures
            final(self).wf(),
            final(self).packed(),
            final(self).bits() == old(self).bits().push(bit),
            final(self).bytes().len() >= old(self).bytes().len(),
            final(self).bytes().subrange(0, old(self).bytes().len() as int) == old(self).bytes(),
    {
        proof {
            lemma_one_bit(bit);
        }
        self.write_bits(
            if bit {
                1
            } else {
                0
            },
            1,
        );
        assert(old(self).bits() + seq![bit] =~= old(self).bits().push(bit));
    }

    /// Appends the bits of each byte, first byte first.
    pub fn write_bytes(&mut self, bytes: &[u8])
        requires
            old(self).wf(),
        ensures
            final(self).wf(),
            final(self).packed(),
            final(self).bits() == old(self).bits() + bytes_to_bits(bytes@),
            final(self).bytes().len() >= old(self).bytes().len(),
            final(self).bytes().subrange(0, old(self).bytes().len() as int) == old(self).bytes(),
    {
        let ghost start = self.bits();
        let ghost old_bytes = self.inner@;
        let mut k: usize = 0;
        proof {
            lemma_bytes_to_bits_empty();
            assert(bytes@.subrange(0, 0) =~= Seq::<u8>::empty());
            assert(start + Seq::<bool>::empty() =~= start);
        }
        while k < bytes.len()
            invariant
                k <= bytes.len(),
                self.wf(),
                self.bits() == start + bytes_to_bits(bytes@.subrange(0, k as int)),
                self.inner@.len() >= old_bytes.len(),
                self.inner@.subrange(0, old_bytes.len() as int) == old_bytes,
            decreases bytes.len() - k,
        {
            let byte = bytes[k];
            self.write_bits(byte as u32, 8);
            proof {
                assert(bytes@.subrange(0, k + 1) =~= bytes@.subrange(0, k as int).push(byte));
                lemma_bytes_to_bits_push(bytes@.subrange(0, k as int), byte);
                assert(low_bits(byte as u32 as u64, 8) == byte_bits(byte));
                assert(self.bits() =~= start + bytes_to_bits(bytes@.subrange(0, k + 1)));
                assert(self.inner@.subrange(0, old_bytes.len() as int) =~= old_bytes);
            }
            k = k + 1;
        }
        assert(bytes@.subrange(0, bytes@.len() as int) =~= bytes@);
    }

    /// Writes out the buffered bits as a last byte completed with zero bits.
    pub fn flush(&mut self)
        requires
            old(self).wf(),
        ensures
            final(self).wf(),
            final(self).packed(),
            final(self).bits() == padded(old(self).bits()),
            final(self).pending().len() == 0,
            bytes_to_bits(final(self).bytes()) == padded(old(self).bits()),
    {
        let ghost b0 = self.bits();
        proof {
            lemma_bytes_to_bits_len(self.inner@);
            assert(b0.len() == self.inner@.len() * 8 + self.bits_buffered);
            assert(b0.len() % 8 == self.bits_buffered as int) by (nonlinear_arith)
                requires
                    b0.len() == self.inner@.len() * 8 + self.bits_buffered,
                    self.bits_buffered < 8,
            ;
        }
        if self.bits_buffered > 0 {
            proof {
                lemma_pad_byte(self.buffer, self.bits_buffered as u64);
                lemma_bytes_to_bits_push(self.inner@, (self.buffer & 0xff) as u8);
            }
            let byte = (self.buffer & 0xFF) as u8;
            self.inner.push(byte);
            self.buffer = 0;
            self.bits_buffered = 0;
            assert(bytes_to_bits(self.inner@) =~= padded(b0));
        } else {
            assert(zero_bits(0) =~= Seq::<bool>::empty());
            assert(bytes_to_bits(self.inner@) =~= padded(b0));
        }
        proof {
            lemma_zero_shifts();
        }
        assert(self.bits() =~= bytes_to_bits(self.inner@));
    }

    /// The bytes written out so far.
    pub fn into_inner(self) -> (v: Vec<u8>)
        ensures
            v@ == self.bytes(),
    {
        self.inner
    }
}

/// A packed writer has written out exactly the complete bytes of its bits:
/// as many bytes as whole bytes of bits, holding the first bits.
pub proof fn lemma_packed_bytes(w: BitWriter)
    requires
        w.packed(),
    ensures
        w.bytes().len() == w.bits().len() / 8,
        bytes_to_bits(w.bytes()) == w.bits().take(w.bytes().len() * 8 as int),
        w.pending() == w.bits().skip(w.bytes().len() * 8 as int),
{
    lemma_bytes_to_bits_len(w.bytes());
    let n = w.bytes().len();
    let p = w.pending().len();
    assert(w.bits().len() == n * 8 + p);
    assert(w.bits().len() / 8 == n) by (nonlinear_arith)
        requires
            w.bits().len() == n * 8 + p,
            p < 8,
    ;
    assert(bytes_to_bits(w.bytes()) =~= w.bits().take(n * 8 as int));
    assert(w.pending() =~= w.bits().skip(n * 8 as int));
}

/// A packed writer is determined by its bits: two writers that hold the same
/// bits have written out the same bytes and wait on the same bits. Writes that
/// append the same bits therefore have the same effect.
pub proof fn lemma_packed_writers_agree(w1: BitWriter, w2: BitWriter)
    requires
        w1.packed(),
        w2.packed(),
        w1.bits() == w2.bits(),
    ensures
        w1.bytes() == w2.bytes(),
        w1.pending() == w2.pending(),
{
    lemma_packed_bytes(w1);
    lemma_packed_bytes(w2);
    lemma_bytes_to_bits_injective(w1.bytes(), w2.bytes());
}

/// The mask of the `bits` low bits of a `u32`.
pub open spec fn low_mask(bits: u8) -> u32 {
    if bits == 32 {
        0xFFFF_FFFFu32
    } else {
        ((1u32 << bits) - 1) as u32
    }
}

/// Bits of a value at or above `bits` are not written: `write_bits` appends
/// the same bits for the value and for the value masked to its `bits` low bits.
/// `write_bit` appends what `write_bits` of 1 or 0 with one bit appends.
pub proof fn lemma_write_bits_masked(value: u32, bits: u8, bit: bool)
    requires
        bits <= 32,
    ensures
        low_bits((value & low_mask(bits)) as u64, bits as nat) == low_bits(value as u64, bits as nat),
        low_bits(if bit { 1u32 as u64 } else { 0u32 as u64 }, 1) == seq![bit],
        low_bits(value as u64, 0) == Seq::<bool>::empty(),
{
    lemma_mask_bits(value, bits);
    lemma_one_bit(bit);
    assert(low_bits(value as u64, 0) =~= Seq::<bool>::empty());
}

/// The bits of bytes, each byte written as eight bits, first byte first.
pub open spec fn byte_writes(bs: Seq<u8>) -> Seq<bool>
    decreases bs.len(),
{
    if bs.len() == 0 {
        Seq::empty()
    } else {
        byte_writes(bs.drop_last()) + low_bits(bs.last() as u32 as u64, 8)
    }
}

/// `write_bytes` appends what `write_bits(b, 8)` appends for each byte `b`
/// in turn.
pub proof fn lemma_write_bytes_as_write_bits(bs: Seq<u8>)
    ensures
        bytes_to_bits(bs) == byte_writes(bs),
    decreases bs.len(),
{
    if bs.len() == 0 {
        lemma_bytes_to_bits_empty();
    } else {
        let d = bs.drop_last();
        lemma_write_bytes_as_write_bits(d);
        assert(d.push(bs.last()) =~= bs);
        lemma_bytes_to_bits_push(d, bs.last());
    }
}

pub proof fn lemma_bytes_to_bits_concat(a: Seq<u8>, b: Seq<u8>)
    ensures
        bytes_to_bits(a + b) == bytes_to_bits(a) + bytes_to_bits(b),
    decreases b.len(),
{
    if b.len() == 0 {
        lemma_bytes_to_bits_empty();
        assert(a + b =~= a);
        assert(bytes_to_bits(a) + Seq::<bool>::empty() =~= bytes_to_bits(a));
    } else {
        let d = b.drop_last();
        let x = b.last();
        lemma_bytes_to_bits_concat(a, d);
        assert(a + b =~= (a + d).push(x));
        assert(b =~= d.push(x));
        lemma_bytes_to_bits_push(a + d, x);
        lemma_bytes_to_bits_push(d, x);
        assert(bytes_to_bits(a) + bytes_to_bits(d) + byte_bits(x) =~= bytes_to_bits(a) + (
        bytes_to_bits(d) + byte_bits(x)));
    }
}

/// On a writer with no bits pending, appending the bits of some bytes
/// writes out exactly those bytes and leaves nothing pending.
pub proof fn lemma_aligned_write_bytes(w1: BitWriter, w2: BitWriter, bs: Seq<u8>)
    requires
        w1.packed(),
        w2.packed(),
        w1.pending().len() == 0,
        w2.bits() == w1.bits() + bytes_to_bits(bs),
    ensures
        w2.bytes() == w1.bytes() + bs,
        w2.pending().len() == 0,
{
    assert(bytes_to_bits(w1.bytes()) + w1.pending() =~= bytes_to_bits(w1.bytes()));
    lemma_bytes_to_bits_concat(w1.bytes(), bs);
    let all = w1.bytes() + bs;
    assert(w2.bits() == bytes_to_bits(all));
    lemma_bytes_to_bits_len(all);
    lemma_packed_bytes(w2);
    assert(w2.bits().len() / 8 == all.len()) by (nonlinear_arith)
        requires
            w2.bits().len() == all.len() * 8,
    ;
    assert(w2.bits().take(all.len() * 8 as int) =~= w2.bits());
    lemma_bytes_to_bits_injective(w2.bytes(), all);
    assert(w2.pending().len() == w2.bits().len() - w2.bytes().len() * 8);
}

/// Reads bits, least significant first, from a byte slice.
pub struct BitReader<'a> {
    inner: &'a [u8],
    pos: usize,
    buffer: u64,
    bits_buffered: u8,
}

impl<'a> BitReader<'a> {
    /// At most eight bits wait in the buffer, and nothing stands above them.
    pub closed spec fn wf(&self) -> bool {
        &&& self.pos <= self.inner@.len()
        &&& self.bits_buffered <= 8
        &&& self.buffer >> (self.bits_buffered as u64) == 0
    }

    /// The bits not read yet: those waiting in the buffer, then those of the
    /// bytes not fetched yet.
    pub closed spec fn remaining(&self) -> Seq<bool> {
        low_bits(self.buffer, self.bits_buffered as nat) + bytes_to_bits(
            self.inner@.skip(self.pos as int),
        )
    }

    /// The bytes the bits are read from.
    pub closed spec fn source(&self) -> Seq<u8> {
        self.inner@
    }

    /// How many bytes have been fetched from the source.
    pub closed spec fn fetched(&self) -> nat {
        self.pos as nat
    }

    /// How many bits of the last fetched byte wait to be read.
    pub closed spec fn pending_len(&self) -> nat {
        self.bits_buffered as nat
    }

    /// A reader of the bits of `inner`.
    pub fn new(inner: &'a [u8]) -> (r: Self)
        ensures
            r.wf(),
            r.remaining() == bytes_to_bits(inner@),
            r.source() == inner@,
            r.fetched() == 0,
            r.pending_len() == 0,
    {
        let r = BitReader { inner, pos: 0, buffer: 0, bits_buffered: 0 };
        proof {
            lemma_zero_shifts();
        }
        assert(inner@.skip(0) =~= inner@);
        assert(r.remaining() =~= bytes_to_bits(inner@));
        r
    }

    /// Reads the next bit; fails when no bit is left. A byte is fetched only
    /// when no bit of the last one waits.
    pub fn read_bit(&mut self) -> (r: Result<bool, DecodeError>)
        requires
            old(self).wf(),
        ensures
            final(self).wf(),
            final(self).source() == old(self).source(),
            r is Ok ==> final(self).pending_len() < 8,
            match r {
                Ok(b) => {
                    &&& old(self).remaining().len() > 0
                    &&& b == old(self).remaining()[0]
                    &&& final(self).remaining() == old(self).remaining().drop_first()
                },
                Err(e) => {
                    &&& e == DecodeError::UnexpectedEof
                    &&& old(self).remaining().len() == 0
                    &&& final(self).remaining() == old(self).remaining()
                },
            },
    {
        let ghost r0 = self.remaining();
        if self.bits_buffered == 0 {
            if self.pos >= self.inner.len() {
                assert(self.inner@.skip(self.pos as int) =~= Seq::<u8>::empty());
                proof {
                    lemma_bytes_to_bits_empty();
                }
                assert(r0 =~= Seq::<bool>::empty());
                return Err(DecodeError::UnexpectedEof);
            }
            proof {
                lemma_bytes_to_bits_skip(self.inner@, self.pos as int);
                lemma_byte_buffer(self.inner@[self.pos as int]);
                assert(low_bits(self.buffer, 0) =~= Seq::<bool>::empty());
            }
            self.buffer = self.inner[self.pos] as u64;
            self.pos = self.pos + 1;
            self.bits_buffered = 8;
            assert(self.remaining() =~= r0);
        }
        proof {
            lemma_split_low_bit(self.buffer, self.bits_buffered as u64);
        }
        let bit = (self.buffer & 1) != 0;
        self.buffer = self.buffer >> 1;
        self.bits_buffered = self.bits_buffered - 1;
        assert(self.remaining() =~= r0.drop_first());
        Ok(bit)
    }

    /// Fills `bytes`, each from the next eight bits, least significant first;
    /// fails when fewer bits are left than `bytes` needs.
    pub fn read_bytes(&mut self, bytes: &mut [u8]) -> (r: Result<(), DecodeError>)
        requires
            old(self).wf(),
        ensures
            final(self).wf(),
            final(self).source() == old(self).source(),
            final(bytes)@.len() == old(bytes)@.len(),
            match r {
                Ok(_) => {
                    &&& old(self).remaining().len() >= old(bytes)@.len() * 8
                    &&& bytes_to_bits(final(bytes)@) == old(self).remaining().take(
                        old(bytes)@.len() * 8 as int,
                    )
                    &&& final(self).remaining() == old(self).remaining().skip(
                        old(bytes)@.len() * 8 as int,
                    )
                },
                Err(e) => {
                    &&& e == DecodeError::UnexpectedEof
                    &&& old(self).remaining().len() < old(bytes)@.len() * 8
                    &&& final(self).remaining().len() == 0
                    &&& bytes_to_bits(
                        final(bytes)@.take(old(self).remaining().len() as int / 8),
                    ) == old(self).remaining().take(old(self).remaining().len() as int / 8 * 8)
                    &&& final(bytes)@.skip(old(self).remaining().len() as int / 8) == old(
                        bytes,
                    )@.skip(old(self).remaining().len() as int / 8)
                },
            },
    {
        let ghost r0 = self.remaining();
        let ghost n = bytes@.len();
        let mut k: usize = 0;
        proof {
            lemma_bytes_to_bits_empty();
            assert(bytes@.subrange(0, 0) =~= Seq::<u8>::empty());
            assert(r0.take(0) =~= Seq::<bool>::empty());
            assert(r0.skip(0) =~= r0);
        }
        while k < bytes.len()
            invariant
                k <= bytes@.len(),
                bytes@.len() == n,
                n == old(bytes)@.len(),
                r0 == old(self).remaining(),
                self.wf(),
                self.source() == old(self).source(),
                r0.len() >= k * 8,
                bytes_to_bits(bytes@.subrange(0, k as int)) == r0.take(k * 8),
                self.remaining() == r0.skip(k * 8),
                bytes@.skip(k as int) == old(bytes)@.skip(k as int),
            decreases n - k,
        {
            let mut val: u8 = 0;
            let mut i: u8 = 0;
            proof {
                lemma_zero_shifts();
            }
            assert(low_bits(0u8 as u64, 0) =~= r0.skip(k * 8).take(0));
            while i < 8
                invariant
                    i <= 8,
                    k < n,
                    bytes@.len() == n,
                    n == old(bytes)@.len(),
                    r0 == old(self).remaining(),
                    bytes_to_bits(bytes@.subrange(0, k as int)) == r0.take(k * 8),
                    bytes@.skip(k as int) == old(bytes)@.skip(k as int),
                    self.wf(),
                    self.source() == old(self).source(),
                    r0.len() >= k * 8 + i,
                    (val as u64) >> (i as u64) == 0 || i == 8,
                    low_bits(val as u64, i as nat) == r0.skip(k * 8).take(i as int),
                    self.remaining() == r0.skip(k * 8 + i),
                decreases 8 - i,
            {
                let ghost before = self.remaining();
                match self.read_bit() {
                    Ok(b) => {
                        proof {
                            lemma_set_bit(val, i, b);
                            assert(r0.skip(k * 8).take(i + 1) =~= r0.skip(k * 8).take(
                                i as int,
                            ).push(before[0]));
                            assert(before.drop_first() =~= r0.skip(k * 8 + i + 1));
                        }
                        if b {
                            val = val | (1u8 << i);
                        }
                        i = i + 1;
                    },
                    Err(e) => {
                        assert(self.remaining().len() == 0);
                        proof {
                            assert(r0.len() == k * 8 + i);
                            assert(r0.len() / 8 == k) by (nonlinear_arith)
                                requires
                                    r0.len() == k * 8 + i,
                                    i < 8,
                            ;
                            assert(bytes@.take(k as int) =~= bytes@.subrange(0, k as int));
                        }
                        return Err(e);
                    },
                }
            }
            proof {
                lemma_bytes_to_bits_push(bytes@.subrange(0, k as int), val);
            }
            let ghost before_b = bytes@;
            bytes[k] = val;
            proof {
                assert forall|j: int| 0 <= j < bytes@.len() - (k + 1) implies #[trigger] bytes@.skip(k + 1)[j]
                    == old(bytes)@.skip(k + 1)[j] by {
                    assert(bytes@[k + 1 + j] == before_b[k + 1 + j]);
                    assert(before_b.skip(k as int)[j + 1] == old(bytes)@.skip(k as int)[j + 1]);
                }
                assert(bytes@.skip(k + 1) =~= old(bytes)@.skip(k + 1));
                assert(bytes@.subrange(0, k + 1) =~= old(bytes)@.subrange(0, 0) + bytes@.subrange(
                    0,
                    k + 1,
                ));
                assert(bytes@.subrange(0, k as int) =~= bytes@.subrange(0, k + 1).drop_last());
                assert(bytes@.subrange(0, k + 1) =~= bytes@.subrange(0, k as int).push(val));
                assert(r0.take((k + 1) * 8) =~= r0.take(k * 8) + r0.skip(k * 8).take(8));
            }
            k = k + 1;
        }
        assert(bytes@.subrange(0, n as int) =~= bytes@);
        Ok(())
    }
}

/// A reader that has read the first `k` bits of its source, with fewer than
/// eight bits of the last fetched byte waiting, reads bit `k % 8` of byte
/// `k / 8` next, and has fetched the bytes it needed and no more.
pub proof fn lemma_reader_position(r: BitReader, k: int)
    requires
        r.wf(),
        r.pending_len() < 8,
        0 <= k <= r.source().len() * 8,
        r.remaining() == bytes_to_bits(r.source()).skip(k),
    ensures
        r.fetched() == (k + 7) / 8,
        k < r.source().len() * 8 ==> r.remaining()[0] == bit_of(r.source()[k / 8] as u64, (k % 8) as u64),
{
    let b = r.source();
    lemma_bytes_to_bits_len(b);
    lemma_bytes_to_bits_len(b.skip(r.fetched() as int));
    let p = r.fetched() as int;
    let q = r.pending_len() as int;
    assert(r.remaining().len() == q + (b.len() - p) * 8);
    assert(p * 8 == k + q);
    assert((k + 7) / 8 == p) by (nonlinear_arith)
        requires
            p * 8 == k + q,
            0 <= q < 8,
    ;
}

/// Stores `node` in pre-order (see [`tree_bits`]).
pub fn serialize_tree(node: &HuffmanNode, writer: &mut BitWriter)
    requires
        old(writer).wf(),
    ensures
        final(writer).wf(),
        final(writer).bits() == old(writer).bits() + tree_bits(*node),
    decreases node,
{
    match node {
        HuffmanNode::Leaf(sym) => {
            writer.write_bit(true);
            let one = [*sym];
            writer.write_bytes(&one);
            proof {
                assert(one@ =~= seq![*sym]);
                lemma_bytes_to_bits_push(Seq::<u8>::empty(), *sym);
                lemma_bytes_to_bits_empty();
                assert(Seq::<bool>::empty() + byte_bits(*sym) =~= byte_bits(*sym));
                assert(old(writer).bits().push(true) + byte_bits(*sym) =~= old(writer).bits()
                    + tree_bits(*node));
            }
        },
        HuffmanNode::Internal(left, right) => {
            writer.write_bit(false);
            serialize_tree(left, writer);
            serialize_tree(right, writer);
            assert(old(writer).bits().push(false) + tree_bits(**left) + tree_bits(**right)
                =~= old(writer).bits() + tree_bits(*node));
        },
    }
}

/// Reads a tree stored in pre-order (see [`parse_tree`]).
pub fn deserialize_tree(reader: &mut BitReader) -> (r: Result<HuffmanNode, DecodeError>)
    requires
        old(reader).wf(),
    ensures
        final(reader).wf(),
        match r {
            Ok(t) => parse_tree(old(reader).remaining()) == Some((t, final(reader).remaining())),
            Err(e) => e == DecodeError::UnexpectedEof && parse_tree(old(reader).remaining()) is None,
        },
    decreases old(reader).remaining().len(),
{
    let ghost r0 = reader.remaining();
    let is_leaf = match reader.read_bit() {
        Ok(b) => b,
        Err(e) => return Err(e),
    };
    if is_leaf {
        let mut byte = [0u8; 1];
        match reader.read_bytes(&mut byte) {
            Ok(()) => {},
            Err(e) => return Err(e),
        }
        proof {
            assert(byte@ =~= seq![byte[0]]);
            lemma_bytes_to_bits_push(Seq::<u8>::empty(), byte[0]);
            lemma_bytes_to_bits_empty();
            assert(Seq::<bool>::empty() + byte_bits(byte[0]) =~= byte_bits(byte[0]));
            assert(r0.subrange(1, 9) =~= r0.drop_first().take(8));
            assert(r0.skip(9) =~= r0.drop_first().skip(8));
            lemma_byte_of_bits(byte[0]);
        }
        Ok(HuffmanNode::Leaf(byte[0]))
    } else {
        let left = match deserialize_tree(reader) {
            Ok(t) => t,
            Err(e) => return Err(e),
        };
        proof {
            lemma_parse_tree_suffix(r0.drop_first());
        }
        let right = match deserialize_tree(reader) {
            Ok(t) => t,
            Err(e) => return Err(e),
        };
        Ok(HuffmanNode::Internal(Box::new(left), Box::new(right)))
    }
}

/// Decodes one symbol by walking `node` along the next bits (see [`walk`]).
fn decode_symbol(node: &HuffmanNode, reader: &mut BitReader) -> (r: Result<u8, DecodeError>)
    requires
        old(reader).wf(),
    ensures
        final(reader).wf(),
        match r {
            Ok(s) => walk(*node, old(reader).remaining()) == Some((s, final(reader).remaining())),
            Err(e) => e == DecodeError::UnexpectedEof && walk(*node, old(reader).remaining()) is None,
        },
    decreases node,
{
    match node {
        HuffmanNode::Leaf(sym) => Ok(*sym),
        HuffmanNode::Internal(left, right) => {
            let bit = match reader.read_bit() {
                Ok(b) => b,
                Err(e) => return Err(e),
            };
            if bit {
                decode_symbol(right, reader)
            } else {
                decode_symbol(left, reader)
            }
        },
    }
}

/// Decodes `expected_size` bytes from a Huffman stream: the stored tree, then
/// the path of each byte (see [`huffman_decode`]). Fails when the stream ends
/// before all of them are read.
pub fn decode(reader: &[u8], expected_size: usize) -> (r: Result<Vec<u8>, DecodeError>)
    ensures
        match r {
            Ok(out) => huffman_decode(reader@, expected_size as nat) == Some(out@),
            Err(e) => e == DecodeError::UnexpectedEof && huffman_decode(
                reader@,
                expected_size as nat,
            ) is None,
        },
{
    if expected_size == 0 {
        return Ok(Vec::new());
    }
    let mut bit_reader = BitReader::new(reader);
    let tree = match deserialize_tree(&mut bit_reader) {
        Ok(t) => t,
        Err(e) => return Err(e),
    };
    let ghost start = bit_reader.remaining();
    let ghost n = expected_size as nat;
    let mut out: Vec<u8> = Vec::new();
    let mut decoded_bytes: usize = 0;
    assert(out@ + Seq::<u8>::empty() =~= out@);
    while decoded_bytes < expected_size
        invariant
            bit_reader.wf(),
            decoded_bytes <= expected_size,
            out@.len() == decoded_bytes,
            huffman_decode(reader@, n) == walk_n(tree, start, n),
            n == expected_size,
            walk_n(tree, start, n) == match walk_n(
                tree,
                bit_reader.remaining(),
                (n - decoded_bytes) as nat,
            ) {
                Some(t) => Some(out@ + t),
                None => None,
            },
        decreases expected_size - decoded_bytes,
    {
        let ghost rem = bit_reader.remaining();
        match decode_symbol(&tree, &mut bit_reader) {
            Ok(s) => {
                out.push(s);
                decoded_bytes = decoded_bytes + 1;
                proof {
                    let m = (n - decoded_bytes) as nat;
                    assert((n - (decoded_bytes - 1)) as nat == m + 1);
                    match walk_n(tree, bit_reader.remaining(), m) {
                        Some(t) => {
                            assert(out@.drop_last() + (seq![s] + t) =~= out@ + t);
                        },
                        None => {},
                    }
                }
            },
            Err(e) => {
                assert((n - decoded_bytes) as nat > 0);
                return Err(e);
            },
        }
    }
    assert(out@ + Seq::<u8>::empty() =~= out@);
    Ok(out)
}

/// The index of a lightest waiting tree.
fn min_index(heap: &Vec<HeapItem>) -> (idx: usize)
    requires
        heap@.len() > 0,
    ensures
        idx == first_min(heap@),
        idx < heap@.len(),
        forall|j: int| 0 <= j < heap@.len() ==> heap@[idx as int].weight <= #[trigger] heap@[j].weight,
{
    proof {
        lemma_first_min_upto(heap@, heap@.len());
    }
    let mut best: usize = 0;
    let mut k: usize = 1;
    while k < heap.len()
        invariant
            1 <= k <= heap@.len(),
            best == first_min_upto(heap@, k as nat),
            best < heap@.len(),
            forall|j: int| 0 <= j < k ==> heap@[best as int].weight <= #[trigger] heap@[j].weight,
        decreases heap@.len() - k,
    {
        if heap[k].weight < heap[best].weight {
            best = k;
        }
        k = k + 1;
    }
    best
}

/// Builds the Huffman tree of the byte frequencies (see [`huffman_tree`]): the
/// leaves are the bytes that occur, and the two lightest trees are joined until
/// one is left. A tree for a single byte gets a second leaf, for byte 0, so
/// that every path has at least one bit. `None` when no byte occurs.
fn build_tree(frequencies: &[usize; 256]) -> (r: Option<HuffmanNode>)
    requires
        sum_freq(frequencies@) <= usize::MAX,
    ensures
        r == huffman_tree(frequencies@),
{
    let ghost freq = frequencies@;
    let mut heap: Vec<HeapItem> = Vec::new();
    let mut symbol: usize = 0;
    while symbol < 256
        invariant
            symbol <= 256,
            freq == frequencies@,
            freq.len() == 256,
            heap@ == leaf_items(freq, symbol as nat),
        decreases 256 - symbol,
    {
        if frequencies[symbol] > 0 {
            heap.push(HeapItem { weight: frequencies[symbol], node: HuffmanNode::Leaf(symbol as u8) });
        }
        symbol = symbol + 1;
    }
    let ghost h_init = heap@;
    proof {
        lemma_leaf_items(freq, 256);
        assert(freq.take(256) =~= freq);
    }
    if heap.len() == 0 {
        return None;
    }
    if heap.len() == 1 {
        let single = heap.pop().unwrap();
        assert(single == h_init[0]);
        return Some(HuffmanNode::Internal(Box::new(single.node), Box::new(HuffmanNode::Leaf(0))));
    }
    proof {
        assert forall|i: int, j: int| 0 <= i < heap@.len() && 0 <= j < heap@.len() implies #[trigger] heap@[i].weight
            >= child_max(#[trigger] heap@[j].node, freq) by {
            assert(heap@[j].weight == weight(heap@[j].node, freq));
            assert(heap@[j].node is Leaf);
        }
        assert(heap_inv(heap@, freq));
    }
    while heap.len() > 1
        invariant
            heap@.len() >= 1,
            freq == frequencies@,
            heap_inv(heap@, freq),
            sum_freq(freq) <= usize::MAX,
            join_all(heap@) == join_all(h_init),
        decreases heap@.len(),
    {
        let ghost h0 = heap@;
        let ia = min_index(&heap);
        let left = heap.remove(ia);
        let ib = min_index(&heap);
        let right = heap.remove(ib);
        proof {
            lemma_join_lightest(h0, ia as int, ib as int, freq);
        }
        let weight = left.weight + right.weight;
        heap.push(HeapItem { weight, node: HuffmanNode::Internal(Box::new(left.node), Box::new(right.node)) });
        proof {
            assert(heap@ == join_two(h0));
        }
    }
    let last = heap.pop().unwrap();
    proof {
        assert(join_all(heap@.push(last)) == heap@.push(last));
        assert(heap@.push(last)[0] == last);
    }
    Some(last.node)
}

/// Gives each leaf of `node` its path as code (see [`assign_codes`]): the path
/// so far is the `depth` low bits of `current_code`; a left step adds a 0 bit,
/// a right step a 1.
fn generate_codes(
    node: &HuffmanNode,
    current_code: u32,
    depth: u8,
    table: &mut [(u32, u8); 256],
)
    requires
        depth + tree_depth(*node) <= 32,
    ensures
        final(table)@ == assign_codes(*node, current_code, depth, old(table)@),
        (current_code as u64) >> (depth as u64) == 0 ==> forall|s: u8|
            #[trigger] has_leaf(*node, s) ==> entry_for(
                final(table)@[s as int],
                current_code,
                depth as nat,
                *node,
                s,
            ),
        forall|s: u8| !has_leaf(*node, s) ==> #[trigger] final(table)@[s as int] == old(table)@[s as int],
    decreases node,
{
    match node {
        HuffmanNode::Leaf(sym) => {
            table[*sym as usize] = (current_code, depth);
            proof {
                let e = (current_code, depth);
                assert(code_path(e).take(depth as int) =~= code_path(e));
                assert(code_path(e).skip(depth as int) =~= Seq::<bool>::empty());
            }
        },
        HuffmanNode::Internal(left, right) => {
            let ghost t0 = table@;
            generate_codes(left, current_code, depth + 1, table);
            let ghost t1 = table@;
            let right_code = current_code | (1 << depth);
            generate_codes(right, right_code, depth + 1, table);
            proof {
                let d = depth as nat;
                if (current_code as u64) >> (depth as u64) == 0 {
                    lemma_code_step(current_code, depth);
                    assert forall|s: u8| #[trigger] has_leaf(*node, s) implies entry_for(
                        table@[s as int],
                        current_code,
                        d,
                        *node,
                        s,
                    ) by {
                        let e = table@[s as int];
                        let p = code_path(e);
                        if has_leaf(**right, s) {
                            assert(entry_for(e, right_code, d + 1, **right, s));
                            assert(p.take(d + 1 as int) == low_bits(current_code as u64, d).push(true));
                            assert(p.take(d as int) =~= low_bits(current_code as u64, d));
                            assert(p[d as int] == p.take(d + 1 as int)[d as int]);
                            assert(p.skip(d as int)[0] == p[d as int]);
                            assert(p.skip(d as int).drop_first() =~= p.skip(d + 1 as int));
                        } else {
                            assert(has_leaf(**left, s));
                            assert(e == t1[s as int]);
                            assert(entry_for(e, current_code, d + 1, **left, s));
                            assert(p.take(d + 1 as int) == low_bits(current_code as u64, d).push(false));
                            assert(p.take(d as int) =~= low_bits(current_code as u64, d));
                            assert(p[d as int] == p.take(d + 1 as int)[d as int]);
                            assert(p.skip(d as int)[0] == p[d as int]);
                            assert(p.skip(d as int).drop_first() =~= p.skip(d + 1 as int));
                        }
                    }
                }
                assert forall|s: u8| !has_leaf(*node, s) implies #[trigger] table@[s as int]
                    == t0[s as int] by {
                    assert(t1[s as int] == t0[s as int]);
                }
            }
        },
    }
}

/// Huffman-codes `data` (see [`huffman_encode`]): the Huffman tree of its byte
/// frequencies, stored in pre-order, then the code of each byte, packed least
/// significant bit first and completed with zero bits to a whole byte. Nothing
/// for empty data. The tree must be at most 32 levels deep, so that each code
/// fits a `u32` (see [`lemma_short_data_shallow_tree`]).
pub fn encode(data: &[u8]) -> (out: Vec<u8>)
    requires
        huffman_tree(freq_of(data@)) matches Some(t) ==> tree_depth(t) <= 32,
    ensures
        out@ == huffman_encode(data@),
        huffman_decode(out@, data@.len()) == Some(data@),
        out@.len() <= 6 * data@.len() + 2,
{
    let mut frequencies = [0usize; 256];
    let len = data.len();
    proof {
        assert(frequencies@ =~= freq_of(data@.take(0)));
        lemma_freq_of(data@);
    }
    let mut i: usize = 0;
    while i < data.len()
        invariant
            i <= data@.len(),
            frequencies@ == freq_of(data@.take(i as int)),
        decreases data@.len() - i,
    {
        let b = data[i] as usize;
        proof {
            assert(data@.take(i as int).len() <= usize::MAX);
            lemma_freq_of(data@.take(i as int));
            lemma_sum_freq_le(frequencies@, b as int);
            assert(data@.take(i + 1).drop_last() =~= data@.take(i as int));
        }
        frequencies[b] = frequencies[b] + 1;
        i = i + 1;
    }
    let ghost n = data@.len();
    let ghost freq = frequencies@;
    proof {
        assert(data@.take(n as int) =~= data@);
        lemma_huffman_tree(freq);
    }
    let tree = match build_tree(&frequencies) {
        Some(t) => t,
        None => {
            if data.len() > 0 {
                assert(freq[data@[0] as int] > 0);
            }
            assert(huffman_decode(Seq::<u8>::empty(), 0) == Some(Seq::<u8>::empty()));
            assert(data@ =~= Seq::<u8>::empty());
            return Vec::new();
        },
    };
    let mut writer = BitWriter::new(Vec::new());
    proof {
        lemma_bytes_to_bits_empty();
    }
    serialize_tree(&tree, &mut writer);
    let mut table = [(0u32, 0u8); 256];
    assert(table@ =~= Seq::new(256, |i: int| (0u32, 0u8)));
    proof {
        lemma_zero_shifts();
    }
    generate_codes(&tree, 0, 0, &mut table);
    proof {
        assert forall|j: int| 0 <= j < n implies reaches(
            tree,
            code_path(table@[data@[j] as int]),
            data@[j],
        ) && table@[data@[j] as int].1 <= 32 by {
            assert(freq[data@[j] as int] > 0);
            assert(has_leaf(tree, data@[j]));
            let e = table@[data@[j] as int];
            assert(code_path(e).skip(0) =~= code_path(e));
        }
        assert(writer.bits() =~= tree_bits(tree) + code_paths(table@, data@.take(0)));
    }
    let mut k: usize = 0;
    while k < data.len()
        invariant
            k <= data@.len(),
            n == data@.len(),
            writer.wf(),
            forall|j: int| 0 <= j < n ==> reaches(
                tree,
                code_path(table@[data@[j] as int]),
                data@[j],
            ) && table@[data@[j] as int].1 <= 32,
            writer.bits() == tree_bits(tree) + code_paths(table@, data@.take(k as int)),
        decreases data@.len() - k,
    {
        let (code, bits) = table[data[k] as usize];
        writer.write_bits(code, bits);
        proof {
            assert(data@.take(k + 1) =~= data@.take(k as int).push(data@[k as int]));
            lemma_code_paths_push(table@, data@.take(k as int), data@[k as int]);
            assert(writer.bits() =~= tree_bits(tree) + code_paths(table@, data@.take(k + 1)));
        }
        k = k + 1;
    }
    let ghost all = writer.bits();
    writer.flush();
    let out = writer.into_inner();
    proof {
        assert(data@.take(n as int) =~= data@);
        let paths = code_paths(table@, data@);
        let pad = zero_bits(pad_len(all.len()));
        assert(padded(all) =~= tree_bits(tree) + (paths + pad));
        lemma_parse_tree_bits(tree, paths + pad);
        lemma_walk_code_paths(tree, table@, data@, pad);
        lemma_bits_to_bytes(out@);
        // size
        lemma_huffman_tree(freq);
        lemma_freq_of(data@);
        lemma_tree_bits_len(tree);
        lemma_code_paths_len(table@, data@, 32);
        lemma_bytes_to_bits_len(out@);
        assert(out@.len() * 8 <= 42 * n + 16);
        assert(out@.len() <= 6 * n + 2) by (nonlinear_arith)
            requires
                out@.len() * 8 <= 42 * n + 16,
        ;
    }
    out
}

} // verus!
