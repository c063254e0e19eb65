//! Bit sequences: how bytes and integers are read as sequences of bits.
//!
//! Throughout the library bits are taken least significant first, both within
//! an integer and within a byte; a byte string is the concatenation of the
//! bits of its bytes, first byte first.
use vstd::prelude::*;

verus! {

/// Bit `i` of `v` (bit 0 is the least significant).
pub open spec fn bit_of(v: u64, i: u64) -> bool {
    (v >> i) & 1 == 1
}

/// The `n` lowest bits of `v`, least significant first.
pub open spec fn low_bits(v: u64, n: nat) -> Seq<bool> {
    Seq::new(n, |i: int| bit_of(v, i as u64))
}

/// The eight bits of a byte, least significant first.
pub open spec fn byte_bits(b: u8) -> Seq<bool> {
    low_bits(b as u64, 8)
}

/// The bits of a byte string: the bits of each byte, first byte first.
pub open spec fn bytes_to_bits(s: Seq<u8>) -> Seq<bool> {
    Seq::new(s.len() * 8, |i: int| bit_of(s[i / 8] as u64, (i % 8) as u64))
}

/// `n` zero bits.
pub open spec fn zero_bits(n: nat) -> Seq<bool> {
    Seq::new(n, |i: int| false)
}

/// The number of zero bits that complete `n` bits to a whole number of bytes.
pub open spec fn pad_len(n: nat) -> nat {
    ((8 - (n % 8)) % 8) as nat
}

/// A bit sequence completed with zero bits to a whole number of bytes.
pub open spec fn padded(bits: Seq<bool>) -> Seq<bool> {
    bits + zero_bits(pad_len(bits.len()))
}

/// Padding keeps the bits in front, adds fewer than eight zero bits, and ends
/// on a byte boundary: what is read back of flushed bits is the bits, then zeros.
pub proof fn lemma_padded(bits: Seq<bool>)
    ensures
        padded(bits).take(bits.len() as int) == bits,
        padded(bits).len() < bits.len() + 8,
        padded(bits).len() % 8 == 0,
        forall|i: int| bits.len() <= i < padded(bits).len() ==> !#[trigger] padded(bits)[i],
{
    assert(padded(bits).take(bits.len() as int) =~= bits);
}

pub proof fn lemma_bytes_to_bits_push(s: Seq<u8>, b: u8)
    ensures
        bytes_to_bits(s.push(b)) == bytes_to_bits(s) + byte_bits(b),
{
    let l = bytes_to_bits(s.push(b));
    let r = bytes_to_bits(s) + byte_bits(b);
    assert forall|i: int| 0 <= i < l.len() implies l[i] == r[i] by {
        if i < s.len() * 8 {
            assert(i / 8 < s.len()) by (nonlinear_arith)
                requires
                    0 <= i < s.len() * 8,
            ;
        } else {
            assert(i / 8 == s.len() && i % 8 == i - s.len() * 8) by (nonlinear_arith)
                requires
                    s.len() * 8 <= i < s.len() * 8 + 8,
            ;
        }
    }
    assert(l =~= r);
}

pub proof fn lemma_bytes_to_bits_empty()
    ensures
        bytes_to_bits(Seq::<u8>::empty()) == Seq::<bool>::empty(),
{
    assert(bytes_to_bits(Seq::<u8>::empty()) =~= Seq::<bool>::empty());
}

/// The bits of a byte string that starts at byte `pos` are the bits of byte
/// `pos` followed by those of the string that starts at `pos + 1`.
pub proof fn lemma_bytes_to_bits_skip(s: Seq<u8>, pos: int)
    requires
        0 <= pos < s.len(),
    ensures
        bytes_to_bits(s.skip(pos)) == byte_bits(s[pos]) + bytes_to_bits(s.skip(pos + 1)),
{
    let l = bytes_to_bits(s.skip(pos));
    let r = byte_bits(s[pos]) + bytes_to_bits(s.skip(pos + 1));
    assert forall|i: int| 0 <= i < l.len() implies l[i] == r[i] by {
        if i < 8 {
            assert(i / 8 == 0 && i % 8 == i);
        } else {
            assert(i / 8 == (i - 8) / 8 + 1 && i % 8 == (i - 8) % 8);
        }
    }
    assert(l =~= r);
}

pub proof fn lemma_bytes_to_bits_len(s: Seq<u8>)
    ensures
        bytes_to_bits(s).len() == s.len() * 8,
{
}

/// Two byte strings with the same bits are equal.
pub proof fn lemma_bytes_to_bits_injective(a: Seq<u8>, b: Seq<u8>)
    requires
        bytes_to_bits(a) == bytes_to_bits(b),
    ensures
        a == b,
{
    assert(bytes_to_bits(a).len() == a.len() * 8 && bytes_to_bits(b).len() == b.len() * 8);
    assert(a.len() == b.len()) by (nonlinear_arith)
        requires
            a.len() * 8 == b.len() * 8,
    ;
    assert forall|k: int| 0 <= k < a.len() implies a[k] == b[k] by {
        assert forall|j: u64| j < 8 implies #[trigger] bit_of(a[k] as u64, j) == bit_of(
            b[k] as u64,
            j,
        ) by {
            let i = k * 8 + j;
            assert(i / 8 == k && i % 8 == j && 0 <= i < a.len() * 8) by (nonlinear_arith)
                requires
                    0 <= k < a.len(),
                    0 <= j < 8,
                    i == k * 8 + j,
            ;
            assert(bytes_to_bits(a)[i] == bytes_to_bits(b)[i]);
            assert(bytes_to_bits(a)[i] == bit_of(a[k] as u64, j));
            assert(bytes_to_bits(b)[i] == bit_of(b[k] as u64, j));
        }
        lemma_byte_from_bits(a[k], b[k]);
    }
    assert(a =~= b);
}

/// Two bytes with the same eight bits are equal.
pub proof fn lemma_byte_from_bits(x: u8, y: u8)
    requires
        forall|j: u64| j < 8 ==> #[trigger] bit_of(x as u64, j) == bit_of(y as u64, j),
    ensures
        x == y,
{
    let a = x as u64;
    let b = y as u64;
    assert(bit_of(a, 0) == bit_of(b, 0));
    assert(bit_of(a, 1) == bit_of(b, 1));
    assert(bit_of(a, 2) == bit_of(b, 2));
    assert(bit_of(a, 3) == bit_of(b, 3));
    assert(bit_of(a, 4) == bit_of(b, 4));
    assert(bit_of(a, 5) == bit_of(b, 5));
    assert(bit_of(a, 6) == bit_of(b, 6));
    assert(bit_of(a, 7) == bit_of(b, 7));
    assert(a == b) by (bit_vector)
        requires
            a < 256,
            b < 256,
            ((a >> 0u64) & 1 == 1) == ((b >> 0u64) & 1 == 1),
            ((a >> 1u64) & 1 == 1) == ((b >> 1u64) & 1 == 1),
            ((a >> 2u64) & 1 == 1) == ((b >> 2u64) & 1 == 1),
            ((a >> 3u64) & 1 == 1) == ((b >> 3u64) & 1 == 1),
            ((a >> 4u64) & 1 == 1) == ((b >> 4u64) & 1 == 1),
            ((a >> 5u64) & 1 == 1) == ((b >> 5u64) & 1 == 1),
            ((a >> 6u64) & 1 == 1) == ((b >> 6u64) & 1 == 1),
            ((a >> 7u64) & 1 == 1) == ((b >> 7u64) & 1 == 1),
    ;
}

/// Or-ing `v` in above the `k` valid bits of `buf` appends the `n` low bits of `v`.
pub proof fn lemma_append_bits(buf: u64, v: u64, k: u64, n: u64)
    requires
        k <= 8,
        n <= 32,
        buf >> k == 0,
        v >> n == 0,
    ensures
        low_bits(buf | (v << k), (k + n) as nat) == low_bits(buf, k as nat) + low_bits(v, n as nat),
        (buf | (v << k)) >> ((k + n) as u64) == 0,
{
    let w = buf | (v << k);
    assert forall|i: int| 0 <= i < k + n implies #[trigger] low_bits(w, (k + n) as nat)[i] == (
    low_bits(buf, k as nat) + low_bits(v, n as nat))[i] by {
        let iu = i as u64;
        if i < k {
            assert((w >> iu) & 1 == (buf >> iu) & 1) by (bit_vector)
                requires
                    w == buf | (v << k),
                    iu < k,
                    k <= 8,
                    n <= 32,
                    v >> n == 0,
            ;
        } else {
            let j = (iu - k) as u64;
            assert((w >> iu) & 1 == (v >> j) & 1) by (bit_vector)
                requires
                    w == buf | (v << k),
                    k <= iu < k + n,
                    j == iu - k,
                    k <= 8,
                    n <= 32,
                    buf >> k == 0,
                    v >> n == 0,
            ;
        }
    }
    assert(low_bits(w, (k + n) as nat) =~= low_bits(buf, k as nat) + low_bits(v, n as nat));
    let kn = (k + n) as u64;
    assert(w >> kn == 0) by (bit_vector)
        requires
            w == buf | (v << k),
            kn == k + n,
            k <= 8,
            n <= 32,
            buf >> k == 0,
            v >> n == 0,
    ;
}

/// Splitting off the low byte of a bit buffer.
pub proof fn lemma_split_low_byte(buf: u64, n: u64)
    requires
        8 <= n <= 64,
        n < 64 ==> buf >> n == 0,
    ensures
        low_bits(buf, n as nat) == byte_bits((buf & 0xff) as u8) + low_bits(buf >> 8, (n - 8) as nat),
        n < 64 ==> (buf >> 8) >> ((n - 8) as u64) == 0,
{
    let l = low_bits(buf, n as nat);
    let r = byte_bits((buf & 0xff) as u8) + low_bits(buf >> 8, (n - 8) as nat);
    assert forall|i: int| 0 <= i < n implies l[i] == r[i] by {
        let iu = i as u64;
        assert(((buf & 0xff) as u8) as u64 == buf & 0xff) by (bit_vector);
        if i < 8 {
            assert(((buf & 0xff) >> iu) & 1 == (buf >> iu) & 1) by (bit_vector)
                requires
                    iu < 8,
            ;
        } else {
            let j = (iu - 8) as u64;
            assert(((buf >> 8) >> j) & 1 == (buf >> iu) & 1) by (bit_vector)
                requires
                    8 <= iu < 64,
                    j == iu - 8,
            ;
        }
    }
    assert(l =~= r);
    if n < 64 {
        let m = (n - 8) as u64;
        assert((buf >> 8) >> m == 0) by (bit_vector)
            requires
                8 <= n < 64,
                m == n - 8,
                buf >> n == 0,
        ;
    }
}

/// Removing the lowest bit of a bit buffer.
pub proof fn lemma_split_low_bit(buf: u64, n: u64)
    requires
        1 <= n <= 8,
        buf >> n == 0,
    ensures
        low_bits(buf, n as nat) == seq![buf & 1 != 0] + low_bits(buf >> 1, (n - 1) as nat),
        (buf >> 1) >> ((n - 1) as u64) == 0,
{
    let l = low_bits(buf, n as nat);
    let r = seq![buf & 1 != 0] + low_bits(buf >> 1, (n - 1) as nat);
    assert forall|i: int| 0 <= i < n implies l[i] == r[i] by {
        let iu = i as u64;
        if i == 0 {
            assert(((buf >> 0u64) & 1 == 1) == (buf & 1 != 0)) by (bit_vector);
        } else {
            let j = (iu - 1) as u64;
            assert(((buf >> 1) >> j) & 1 == (buf >> iu) & 1) by (bit_vector)
                requires
                    1 <= iu < 8,
                    j == iu - 1,
            ;
        }
    }
    assert(l =~= r);
    let m = (n - 1) as u64;
    assert((buf >> 1) >> m == 0) by (bit_vector)
        requires
            1 <= n <= 8,
            m == n - 1,
            buf >> n == 0,
    ;
}

/// The low bits of a value masked to its `n` lowest bits.
pub proof fn lemma_mask_bits(value: u32, n: u8)
    requires
        n <= 32,
    ensures
        ({
            let mask: u32 = if n == 32 {
                0xFFFFFFFFu32
            } else {
                ((1u32 << n) - 1) as u32
            };
            let v = (value & mask) as u64;
            &&& low_bits(v, n as nat) == low_bits(value as u64, n as nat)
            &&& v >> (n as u64) == 0
        }),
{
    let mask: u32 = if n == 32 {
        0xFFFFFFFFu32
    } else {
        ((1u32 << n) - 1) as u32
    };
    let v = (value & mask) as u64;
    let nn = n as u64;
    if n == 32 {
        assert(v == value as u64 && v >> nn == 0) by (bit_vector)
            requires
                mask == 0xFFFFFFFFu32,
                v == (value & mask) as u64,
                nn == 32,
        ;
    } else {
        assert(1u32 << n >= 1) by (bit_vector)
            requires
                n < 32,
        ;
        assert(v >> nn == 0) by (bit_vector)
            requires
                n < 32,
                nn == n as u64,
                mask == ((1u32 << n) - 1) as u32,
                v == (value & mask) as u64,
        ;
        assert forall|i: int| 0 <= i < n implies #[trigger] low_bits(v, n as nat)[i] == low_bits(
            value as u64,
            n as nat,
        )[i] by {
            let iu = i as u64;
            assert((v >> iu) & 1 == ((value as u64) >> iu) & 1) by (bit_vector)
                requires
                    n < 32,
                    iu < n,
                    mask == ((1u32 << n) - 1) as u32,
                    v == (value & mask) as u64,
            ;
        }
    }
    assert(low_bits(v, n as nat) =~= low_bits(value as u64, n as nat));
}

/// The last, partly filled byte of a bit buffer holds its bits followed by zeros.
pub proof fn lemma_pad_byte(buf: u64, n: u64)
    requires
        n < 8,
        buf >> n == 0,
    ensures
        byte_bits((buf & 0xff) as u8) == low_bits(buf, n as nat) + zero_bits((8 - n) as nat),
{
    let l = byte_bits((buf & 0xff) as u8);
    let r = low_bits(buf, n as nat) + zero_bits((8 - n) as nat);
    assert(((buf & 0xff) as u8) as u64 == buf & 0xff) by (bit_vector);
    assert forall|i: int| 0 <= i < 8 implies l[i] == r[i] by {
        let iu = i as u64;
        if i < n {
            assert(((buf & 0xff) >> iu) & 1 == (buf >> iu) & 1) by (bit_vector)
                requires
                    iu < 8,
            ;
        } else {
            assert(((buf & 0xff) >> iu) & 1 == 0) by (bit_vector)
                requires
                    n <= iu < 8,
                    buf >> n == 0,
            ;
        }
    }
    assert(l =~= r);
}

/// A single bit written as the one low bit of 0 or 1.
pub proof fn lemma_one_bit(bit: bool)
    ensures
        low_bits(if bit { 1u64 } else { 0u64 }, 1) == seq![bit],
{
    assert(((1u64 >> 0u64) & 1 == 1) && !((0u64 >> 0u64) & 1 == 1)) by (bit_vector);
    assert(low_bits(if bit { 1u64 } else { 0u64 }, 1) =~= seq![bit]);
}

/// Setting bit `i` of a byte whose bits from `i` upward are clear appends `b`.
pub proof fn lemma_set_bit(val: u8, i: u8, b: bool)
    requires
        i < 8,
        (val as u64) >> (i as u64) == 0,
    ensures
        ({
            let nv: u8 = if b { val | (1u8 << i) } else { val };
            &&& low_bits(nv as u64, (i + 1) as nat) == low_bits(val as u64, i as nat).push(b)
            &&& (nv as u64) >> ((i + 1) as u64) == 0
        }),
{
    let nv: u8 = if b { val | (1u8 << i) } else { val };
    let v = val as u64;
    let w = nv as u64;
    let iu = i as u64;
    if b {
        assert(w == v | (1u64 << iu)) by (bit_vector)
            requires
                i < 8,
                nv == val | (1u8 << i),
                v == val as u64,
                w == nv as u64,
                iu == i as u64,
        ;
    } else {
        assert(w == v);
    }
    let l = low_bits(w, (i + 1) as nat);
    let r = low_bits(v, i as nat).push(b);
    assert forall|j: int| 0 <= j <= i implies l[j] == r[j] by {
        let ju = j as u64;
        if j < i {
            assert((w >> ju) & 1 == (v >> ju) & 1) by (bit_vector)
                requires
                    ju < iu,
                    iu < 8,
                    w == v | (1u64 << iu) || w == v,
            ;
        } else if b {
            assert((w >> iu) & 1 == 1) by (bit_vector)
                requires
                    iu < 8,
                    w == v | (1u64 << iu),
            ;
        } else {
            assert((w >> iu) & 1 == 0) by (bit_vector)
                requires
                    iu < 8,
                    w == v,
                    v >> iu == 0,
            ;
        }
    }
    assert(l =~= r);
    let i1 = (iu + 1) as u64;
    assert(w >> i1 == 0) by (bit_vector)
        requires
            iu < 8,
            i1 == iu + 1,
            v >> iu == 0,
            w == v | (1u64 << iu) || w == v,
    ;
}

/// A byte read as eight bits is a low bit buffer of eight bits.
pub proof fn lemma_byte_buffer(b: u8)
    ensures
        low_bits(b as u64, 8) == byte_bits(b),
        (b as u64) >> 8u64 == 0,
{
    let v = b as u64;
    assert(v >> 8u64 == 0) by (bit_vector)
        requires
            v == b as u64,
    ;
}

/// Extending a code of `d` bits by one bit: a 0 keeps the code, a 1 sets bit `d`.
pub proof fn lemma_code_step(code: u32, d: u8)
    requires
        d < 32,
        (code as u64) >> (d as u64) == 0,
    ensures
        ((code | (1u32 << d)) as u64) >> ((d + 1) as u64) == 0,
        (code as u64) >> ((d + 1) as u64) == 0,
        low_bits((code | (1u32 << d)) as u64, (d + 1) as nat) == low_bits(code as u64, d as nat).push(true),
        low_bits(code as u64, (d + 1) as nat) == low_bits(code as u64, d as nat).push(false),
{
    let c = code as u64;
    let r = (code | (1u32 << d)) as u64;
    let du = d as u64;
    let d1 = (du + 1) as u64;
    assert(r == c | (1u64 << du) && r >> d1 == 0 && c >> d1 == 0) by (bit_vector)
        requires
            d < 32,
            c == code as u64,
            r == (code | (1u32 << d)) as u64,
            du == d as u64,
            d1 == du + 1,
            c >> du == 0,
    ;
    assert forall|i: int| 0 <= i <= d implies #[trigger] low_bits(r, (d + 1) as nat)[i]
        == low_bits(c, d as nat).push(true)[i] by {
        let iu = i as u64;
        if i < d {
            assert((r >> iu) & 1 == (c >> iu) & 1) by (bit_vector)
                requires
                    iu < du,
                    du < 32,
                    r == c | (1u64 << du),
            ;
        } else {
            assert((r >> iu) & 1 == 1) by (bit_vector)
                requires
                    iu == du,
                    du < 32,
                    r == c | (1u64 << du),
            ;
        }
    }
    assert forall|i: int| 0 <= i <= d implies #[trigger] low_bits(c, (d + 1) as nat)[i]
        == low_bits(c, d as nat).push(false)[i] by {
        let iu = i as u64;
        if i == d {
            assert((c >> iu) & 1 == 0) by (bit_vector)
                requires
                    iu == du,
                    c >> du == 0,
            ;
        }
    }
    assert(low_bits(r, (d + 1) as nat) =~= low_bits(c, d as nat).push(true));
    assert(low_bits(c, (d + 1) as nat) =~= low_bits(c, d as nat).push(false));
}

} // verus!
