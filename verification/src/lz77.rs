//! The model of the LZ77 stage: tokens, how they rebuild data, how they are
//! stored in groups behind a flags byte, and how a stored stream is decoded.
use vstd::prelude::*;
use crate::endian::{u16_be, u16_of_be, lemma_u16_be};
use crate::error::DecodeError;

verus! {

/// One step of the LZ77 stage: a byte as it is, or a copy of `length` bytes
/// that starts `distance` bytes back in the output.
#[derive(Debug, Clone, Copy, PartialEq, Eq, Structural)]
pub enum Token {
    Literal(u8),
    Match { distance: u16, length: u8 },
}

/// Copies `l` bytes, one at a time, each from `d` bytes back; a copy may
/// overlap the bytes it appends.
pub open spec fn copy_match(out: Seq<u8>, d: nat, l: nat) -> Seq<u8>
    decreases l,
{
    if l == 0 {
        out
    } else {
        let o = copy_match(out, d, (l - 1) as nat);
        o.push(o[o.len() - d])
    }
}

/// The output after one more token.
pub open spec fn apply_token(out: Seq<u8>, t: Token) -> Seq<u8> {
    match t {
        Token::Literal(b) => out.push(b),
        Token::Match { distance, length } => copy_match(out, distance as nat, length as nat),
    }
}

/// A token that can follow `out`: a match reaches back at most to the start and
/// copies at least one byte.
pub open spec fn token_ok(out: Seq<u8>, t: Token) -> bool {
    match t {
        Token::Literal(_) => true,
        Token::Match { distance, length } => 1 <= distance <= out.len() && length >= 1,
    }
}

/// Every match of `toks` copies at least [`MIN_MATCH_LEN`] bytes.
pub open spec fn matches_long_enough(toks: Seq<Token>) -> bool {
    forall|i: int|
        0 <= i < toks.len() ==> (#[trigger] toks[i] matches Token::Match { length, .. } ==> length
            >= 3)
}

/// The output after the tokens `toks`, applied one after the other to `out`.
pub open spec fn replay(out: Seq<u8>, toks: Seq<Token>) -> Seq<u8>
    decreases toks.len(),
{
    if toks.len() == 0 {
        out
    } else {
        replay(apply_token(out, toks[0]), toks.drop_first())
    }
}

/// Each of the tokens can follow the output before it.
pub open spec fn tokens_ok(out: Seq<u8>, toks: Seq<Token>) -> bool
    decreases toks.len(),
{
    toks.len() == 0 || (token_ok(out, toks[0]) && tokens_ok(
        apply_token(out, toks[0]),
        toks.drop_first(),
    ))
}

/// How a token is stored: a literal as its byte; a match as its distance,
/// big-endian, then its length.
pub open spec fn token_bytes(t: Token) -> Seq<u8> {
    match t {
        Token::Literal(b) => seq![b],
        Token::Match { distance, length } => u16_be(distance) + seq![length],
    }
}

/// The stored tokens, one after the other.
pub open spec fn tokens_bytes(toks: Seq<Token>) -> Seq<u8>
    decreases toks.len(),
{
    if toks.len() == 0 {
        Seq::empty()
    } else {
        token_bytes(toks[0]) + tokens_bytes(toks.drop_first())
    }
}

/// Bit `i` of a flags byte.
pub open spec fn flag_set(flags: u8, i: nat) -> bool {
    (flags >> (i as u8)) & 1 == 1
}

/// The flags byte of a group of at most eight tokens: bit `i` is set when
/// token `i` is a match.
pub open spec fn token_flags(toks: Seq<Token>) -> u8
    decreases toks.len(),
{
    if toks.len() == 0 {
        0
    } else {
        let f = token_flags(toks.drop_last());
        if toks.last() is Match {
            f | (1u8 << ((toks.len() - 1) as u8))
        } else {
            f
        }
    }
}

/// How a group of at most eight tokens is stored: its flags byte, then its
/// tokens.
pub open spec fn group_bytes(toks: Seq<Token>) -> Seq<u8> {
    seq![token_flags(toks)] + tokens_bytes(toks)
}

/// The number of tokens in the next group.
pub open spec fn group_len(n: nat) -> nat {
    if n < 8 {
        n
    } else {
        8
    }
}

/// How a token sequence is stored: in groups of eight, the last group
/// possibly shorter.
pub open spec fn lz_stream(toks: Seq<Token>) -> Seq<u8>
    decreases toks.len(),
{
    if toks.len() == 0 {
        Seq::empty()
    } else {
        let k = group_len(toks.len());
        group_bytes(toks.take(k as int)) + lz_stream(toks.skip(k as int))
    }
}

/// Decodes the tokens of one group, from slot `i` on, reading at `pos`; stops
/// after slot 7 or as soon as the output holds `ulen` bytes. Gives the position
/// after the group and the output.
pub open spec fn lz_slots(
    buf: Seq<u8>,
    pos: nat,
    out: Seq<u8>,
    ulen: nat,
    flags: u8,
    i: nat,
) -> Result<(nat, Seq<u8>), DecodeError>
    decreases 8 - i,
{
    if i >= 8 || out.len() >= ulen {
        Ok((pos, out))
    } else if flag_set(flags, i) {
        if pos + 3 > buf.len() {
            Err(DecodeError::UnexpectedEof)
        } else {
            let d = u16_of_be(buf.subrange(pos as int, pos + 2 as int));
            let l = buf[pos + 2 as int];
            if d == 0 || d > out.len() {
                Err(DecodeError::BadMatchDistance(d as usize))
            } else {
                lz_slots(buf, pos + 3, copy_match(out, d as nat, l as nat), ulen, flags, i + 1)
            }
        }
    } else if pos + 1 > buf.len() {
        Err(DecodeError::UnexpectedEof)
    } else {
        lz_slots(buf, pos + 1, out.push(buf[pos as int]), ulen, flags, i + 1)
    }
}

/// Decodes groups from `pos` on until the output holds `ulen` bytes.
pub open spec fn lz_groups(buf: Seq<u8>, pos: nat, out: Seq<u8>, ulen: nat) -> Result<
    Seq<u8>,
    DecodeError,
>
    decreases buf.len() - pos,
{
    if out.len() >= ulen {
        Ok(out)
    } else if pos >= buf.len() {
        Err(DecodeError::UnexpectedEof)
    } else {
        match lz_slots(buf, pos + 1, out, ulen, buf[pos as int], 0) {
            Err(e) => Err(e),
            Ok((p, o)) => if pos < p <= buf.len() {
                lz_groups(buf, p, o, ulen)
            } else {
                Ok(o)
            },
        }
    }
}

/// Decodes a stored token stream into `ulen` bytes (or a few more, when the
/// last match runs past them).
pub open spec fn lz_decode(buf: Seq<u8>, ulen: nat) -> Result<Seq<u8>, DecodeError> {
    lz_groups(buf, 0, Seq::empty(), ulen)
}

/// A group never reads before its start or past the end.
pub proof fn lemma_lz_slots_pos(
    buf: Seq<u8>,
    pos: nat,
    out: Seq<u8>,
    ulen: nat,
    flags: u8,
    i: nat,
)
    requires
        pos <= buf.len(),
    ensures
        lz_slots(buf, pos, out, ulen, flags, i) matches Ok((p, o)) ==> pos <= p <= buf.len(),
    decreases 8 - i,
{
    if i < 8 && out.len() < ulen {
        if flag_set(flags, i) {
            if pos + 3 <= buf.len() {
                let d = u16_of_be(buf.subrange(pos as int, pos + 2 as int));
                let l = buf[pos + 2 as int];
                lemma_lz_slots_pos(
                    buf,
                    pos + 3,
                    copy_match(out, d as nat, l as nat),
                    ulen,
                    flags,
                    i + 1,
                );
            }
        } else if pos + 1 <= buf.len() {
            lemma_lz_slots_pos(buf, pos + 1, out.push(buf[pos as int]), ulen, flags, i + 1);
        }
    }
}

pub proof fn lemma_copy_match_len(out: Seq<u8>, d: nat, l: nat)
    ensures
        copy_match(out, d, l).len() == out.len() + l,
        copy_match(out, d, l).subrange(0, out.len() as int) == out,
    decreases l,
{
    if l > 0 {
        lemma_copy_match_len(out, d, (l - 1) as nat);
        let o = copy_match(out, d, (l - 1) as nat);
        assert(o.push(o[o.len() - d]).subrange(0, out.len() as int) =~= o.subrange(
            0,
            out.len() as int,
        ));
    }
}

/// A match over bytes that equal those `d` back rebuilds them.
pub proof fn lemma_copy_match_rebuilds(data: Seq<u8>, pos: nat, d: nat, l: nat)
    requires
        1 <= d <= pos,
        pos + l <= data.len(),
        forall|j: int| 0 <= j < l ==> data[pos + j] == #[trigger] data[pos - d + j],
    ensures
        copy_match(data.take(pos as int), d, l) == data.take(pos + l as int),
    decreases l,
{
    if l > 0 {
        lemma_copy_match_rebuilds(data, pos, d, (l - 1) as nat);
        let o = data.take(pos + l - 1 as int);
        assert(data[pos + (l - 1)] == data[pos - d + (l - 1)]);
        assert(o.push(o[o.len() - d]) =~= data.take(pos + l as int));
    }
}

/// Each valid token adds at least one byte.
pub proof fn lemma_replay_grows(out: Seq<u8>, toks: Seq<Token>)
    requires
        tokens_ok(out, toks),
    ensures
        replay(out, toks).len() >= out.len() + toks.len(),
    decreases toks.len(),
{
    if toks.len() > 0 {
        let t = toks[0];
        match t {
            Token::Literal(_) => {},
            Token::Match { distance, length } => {
                lemma_copy_match_len(out, distance as nat, length as nat);
            },
        }
        lemma_replay_grows(apply_token(out, t), toks.drop_first());
    }
}

/// Replaying two token sequences one after the other.
pub proof fn lemma_replay_append(out: Seq<u8>, a: Seq<Token>, b: Seq<Token>)
    ensures
        replay(out, a + b) == replay(replay(out, a), b),
        tokens_ok(out, a + b) == (tokens_ok(out, a) && tokens_ok(replay(out, a), b)),
    decreases a.len(),
{
    if a.len() == 0 {
        assert(a + b =~= b);
    } else {
        assert((a + b).drop_first() =~= a.drop_first() + b);
        assert((a + b)[0] == a[0]);
        lemma_replay_append(apply_token(out, a[0]), a.drop_first(), b);
    }
}

/// Replaying one more token.
pub proof fn lemma_replay_push(out: Seq<u8>, toks: Seq<Token>, t: Token)
    ensures
        replay(out, toks.push(t)) == apply_token(replay(out, toks), t),
        tokens_ok(out, toks.push(t)) == (tokens_ok(out, toks) && token_ok(replay(out, toks), t)),
{
    assert(toks.push(t) =~= toks + seq![t]);
    lemma_replay_append(out, toks, seq![t]);
    let r = replay(out, toks);
    assert(seq![t].drop_first() =~= Seq::<Token>::empty());
    assert(replay(r, seq![t]) == replay(apply_token(r, t), Seq::<Token>::empty()));
    assert(tokens_ok(r, seq![t]) == (token_ok(r, t) && tokens_ok(
        apply_token(r, t),
        Seq::<Token>::empty(),
    )));
}

/// The bits of a group's flags byte mark its matches, and no bit stands above them.
pub proof fn lemma_token_flags(toks: Seq<Token>)
    requires
        toks.len() <= 8,
    ensures
        (token_flags(toks) as u64) >> (toks.len() as u64) == 0,
        forall|j: nat| j < toks.len() ==> #[trigger] flag_set(token_flags(toks), j) == (
        toks[j as int] is Match),
    decreases toks.len(),
{
    if toks.len() == 0 {
        assert((0u8 as u64) >> 0u64 == 0) by (bit_vector);
    } else {
        let init = toks.drop_last();
        lemma_token_flags(init);
        let f = token_flags(init);
        let n = (toks.len() - 1) as u8;
        let nf = token_flags(toks);
        let ismatch = toks.last() is Match;
        assert(nf == if ismatch { f | (1u8 << n) } else { f });
        let n64 = n as u64;
        let n1 = (n + 1) as u64;
        assert((nf as u64) >> n1 == 0) by (bit_vector)
            requires
                n < 8,
                n64 == n as u64,
                n1 == n64 + 1,
                (f as u64) >> n64 == 0,
                nf == f | (1u8 << n) || nf == f,
        ;
        assert forall|j: nat| j < toks.len() implies #[trigger] flag_set(nf, j) == (
        toks[j as int] is Match) by {
            let ju = j as u8;
            if j < n {
                assert(flag_set(f, j) == (init[j as int] is Match));
                assert(((nf >> ju) & 1 == 1) == ((f >> ju) & 1 == 1)) by (bit_vector)
                    requires
                        ju < n,
                        n < 8,
                        nf == f | (1u8 << n) || nf == f,
                ;
            } else {
                assert(ju == n);
                if ismatch {
                    assert((nf >> ju) & 1 == 1) by (bit_vector)
                        requires
                            ju == n,
                            n < 8,
                            nf == f | (1u8 << n),
                    ;
                } else {
                    assert((nf >> ju) & 1 == 0) by (bit_vector)
                        requires
                            ju == n,
                            n64 == n as u64,
                            n < 8,
                            nf == f,
                            (f as u64) >> n64 == 0,
                    ;
                }
            }
        }
    }
}

/// Decoding the slots of a stored group gives the output after its tokens.
proof fn lemma_slots_decode(
    buf: Seq<u8>,
    p: nat,
    out: Seq<u8>,
    ulen: nat,
    flags: u8,
    i: nat,
    rest: Seq<Token>,
)
    requires
        i + rest.len() <= 8,
        forall|j: nat| j < rest.len() ==> #[trigger] flag_set(flags, i + j) == (rest[j as int] is Match),
        p + tokens_bytes(rest).len() <= buf.len(),
        buf.subrange(p as int, (p + tokens_bytes(rest).len()) as int) == tokens_bytes(rest),
        tokens_ok(out, rest),
        replay(out, rest).len() <= ulen,
        i + rest.len() < 8 ==> replay(out, rest).len() >= ulen,
    ensures
        lz_slots(buf, p, out, ulen, flags, i) == Ok::<(nat, Seq<u8>), DecodeError>(
            (p + tokens_bytes(rest).len(), replay(out, rest)),
        ),
    decreases rest.len(),
{
    if rest.len() == 0 {
        assert(tokens_bytes(rest).len() == 0);
    } else {
        let t = rest[0];
        let tail = rest.drop_first();
        lemma_replay_grows(out, rest);
        assert(out.len() < ulen);
        assert(flag_set(flags, i + 0) == (rest[0] is Match));
        assert(i + 0 == i);
        let tb = tokens_bytes(rest);
        assert(tb == token_bytes(t) + tokens_bytes(tail));
        assert forall|j: nat| j < tail.len() implies #[trigger] flag_set(flags, (i + 1) + j) == (
        tail[j as int] is Match) by {
            assert(flag_set(flags, i + (j + 1)) == (rest[(j + 1) as int] is Match));
            assert(i + (j + 1) == (i + 1) + j);
        }
        match t {
            Token::Literal(b) => {
                assert(buf[p as int] == tb[0]);
                assert(buf.subrange((p + 1) as int, (p + 1 + tokens_bytes(tail).len()) as int) =~= tb.subrange(
                    1,
                    tb.len() as int,
                ));
                assert(tb.subrange(1, tb.len() as int) =~= tokens_bytes(tail));
                lemma_slots_decode(buf, p + 1, out.push(b), ulen, flags, i + 1, tail);
            },
            Token::Match { distance, length } => {
                lemma_u16_be(distance);
                assert(buf.subrange(p as int, (p + 2) as int) =~= tb.subrange(0, 2));
                assert(tb.subrange(0, 2) =~= u16_be(distance));
                assert(buf[p + 2 as int] == tb[2]);
                assert(buf.subrange((p + 3) as int, (p + 3 + tokens_bytes(tail).len()) as int) =~= tb.subrange(
                    3,
                    tb.len() as int,
                ));
                assert(tb.subrange(3, tb.len() as int) =~= tokens_bytes(tail));
                lemma_slots_decode(
                    buf,
                    p + 3,
                    copy_match(out, distance as nat, length as nat),
                    ulen,
                    flags,
                    i + 1,
                    tail,
                );
            },
        }
    }
}

/// Decoding a stored token sequence gives the output after its tokens.
pub proof fn lemma_groups_decode(buf: Seq<u8>, pos: nat, out: Seq<u8>, ulen: nat, toks: Seq<Token>)
    requires
        pos + lz_stream(toks).len() <= buf.len(),
        buf.subrange(pos as int, (pos + lz_stream(toks).len()) as int) == lz_stream(toks),
        tokens_ok(out, toks),
        replay(out, toks).len() == ulen,
    ensures
        lz_groups(buf, pos, out, ulen) == Ok::<Seq<u8>, DecodeError>(replay(out, toks)),
    decreases toks.len(),
{
    if toks.len() > 0 {
        let k = group_len(toks.len());
        let g = toks.take(k as int);
        let tail = toks.skip(k as int);
        assert(toks =~= g + tail);
        lemma_replay_append(out, g, tail);
        lemma_replay_grows(out, toks);
        lemma_replay_grows(replay(out, g), tail);
        let stream = lz_stream(toks);
        let gb = group_bytes(g);
        assert(stream == gb + lz_stream(tail));
        assert(buf[pos as int] == stream[0]);
        assert(stream[0] == token_flags(g));
        lemma_token_flags(g);
        assert forall|j: nat| j < g.len() implies #[trigger] flag_set(token_flags(g), 0 + j) == (
        g[j as int] is Match) by {
            assert(0 + j == j);
        }
        let tb = tokens_bytes(g);
        assert(buf.subrange((pos + 1) as int, (pos + 1 + tb.len()) as int) =~= stream.subrange(1, (1 + tb.len()) as int));
        assert(stream.subrange(1, (1 + tb.len()) as int) =~= tb);
        if k < 8 {
            assert(tail.len() == 0);
        }
        lemma_slots_decode(buf, pos + 1, out, ulen, token_flags(g), 0, g);
        let p2 = pos + 1 + tb.len();
        assert(buf.subrange(p2 as int, (p2 + lz_stream(tail).len()) as int) =~= stream.subrange(
            (1 + tb.len()) as int,
            stream.len() as int,
        ));
        assert(stream.subrange((1 + tb.len()) as int, stream.len() as int) =~= lz_stream(tail));
        lemma_groups_decode(buf, p2, replay(out, g), ulen, tail);
    }
}

/// The stream of tokens whose count is a multiple of eight, followed by more.
pub proof fn lemma_lz_stream_append(a: Seq<Token>, b: Seq<Token>)
    requires
        a.len() % 8 == 0,
    ensures
        lz_stream(a + b) == lz_stream(a) + lz_stream(b),
    decreases a.len(),
{
    if a.len() == 0 {
        assert(a + b =~= b);
        assert(lz_stream(a) =~= Seq::<u8>::empty());
        assert(lz_stream(a) + lz_stream(b) =~= lz_stream(b));
    } else {
        assert((a + b).take(8) =~= a.take(8));
        assert((a + b).skip(8) =~= a.skip(8) + b);
        lemma_lz_stream_append(a.skip(8), b);
    }
}

/// A group of one to eight tokens is stored as a single group.
pub proof fn lemma_lz_stream_group(g: Seq<Token>)
    requires
        1 <= g.len() <= 8,
    ensures
        lz_stream(g) == group_bytes(g),
{
    assert(g.take(g.len() as int) =~= g);
    assert(g.skip(g.len() as int) =~= Seq::<Token>::empty());
    assert(lz_stream(Seq::<Token>::empty()) =~= Seq::<u8>::empty());
    assert(group_bytes(g) + Seq::<u8>::empty() =~= group_bytes(g));
}

/// Storing one more token.
pub proof fn lemma_tokens_bytes_push(toks: Seq<Token>, t: Token)
    ensures
        tokens_bytes(toks.push(t)) == tokens_bytes(toks) + token_bytes(t),
    decreases toks.len(),
{
    if toks.len() == 0 {
        assert(toks.push(t).drop_first() =~= Seq::<Token>::empty());
        assert(tokens_bytes(toks.push(t).drop_first()) =~= Seq::<u8>::empty());
        assert(tokens_bytes(toks.push(t)) =~= tokens_bytes(toks) + token_bytes(t));
    } else {
        assert(toks.push(t).drop_first() =~= toks.drop_first().push(t));
        lemma_tokens_bytes_push(toks.drop_first(), t);
        assert(tokens_bytes(toks.push(t)) =~= tokens_bytes(toks) + token_bytes(t));
    }
}

} // verus!
