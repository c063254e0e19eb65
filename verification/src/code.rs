//! The model of a Huffman code: the tree, how it is stored as bits, and how a
//! bit stream is decoded with it.
use vstd::prelude::*;
use crate::bits::{byte_bits, bytes_to_bits, lemma_byte_from_bits, low_bits, bit_of};

verus! {

/// A Huffman tree: a leaf holds a byte, an internal node two subtrees. A 0 bit
/// leads to the left subtree, a 1 bit to the right one.
#[derive(Debug)]
pub enum HuffmanNode {
    Leaf(u8),
    Internal(Box<HuffmanNode>, Box<HuffmanNode>),
}

/// The byte whose eight bits are `b`.
pub open spec fn byte_of_bits(b: Seq<bool>) -> u8 {
    choose|x: u8| byte_bits(x) == b
}

pub proof fn lemma_byte_of_bits(x: u8)
    ensures
        byte_of_bits(byte_bits(x)) == x,
{
    let y = byte_of_bits(byte_bits(x));
    assert(byte_bits(y) == byte_bits(x));
    assert forall|j: u64| j < 8 implies #[trigger] bit_of(y as u64, j) == bit_of(x as u64, j) by {
        assert(byte_bits(y)[j as int] == byte_bits(x)[j as int]);
    }
    lemma_byte_from_bits(y, x);
}

/// How a tree is stored, in pre-order: a 1 bit and the eight bits of the byte
/// for a leaf; a 0 bit, then the left subtree, then the right one, for an
/// internal node.
pub open spec fn tree_bits(t: HuffmanNode) -> Seq<bool>
    decreases t,
{
    match t {
        HuffmanNode::Leaf(s) => seq![true] + byte_bits(s),
        HuffmanNode::Internal(l, r) => seq![false] + tree_bits(*l) + tree_bits(*r),
    }
}

/// Reads a stored tree from the front of `bits`: the tree and the bits after it,
/// or `None` when the bits end first.
pub open spec fn parse_tree(bits: Seq<bool>) -> Option<(HuffmanNode, Seq<bool>)>
    decreases bits.len(),
{
    if bits.len() == 0 {
        None
    } else if bits[0] {
        if bits.len() < 9 {
            None
        } else {
            Some((HuffmanNode::Leaf(byte_of_bits(bits.subrange(1, 9))), bits.skip(9)))
        }
    } else {
        match parse_tree(bits.drop_first()) {
            None => None,
            Some((l, rest)) => if rest.len() < bits.len() {
                match parse_tree(rest) {
                    None => None,
                    Some((r, rest2)) => Some(
                        (HuffmanNode::Internal(Box::new(l), Box::new(r)), rest2),
                    ),
                }
            } else {
                None
            },
        }
    }
}

/// What a parsed tree leaves behind is a proper suffix of what it was read from.
pub proof fn lemma_parse_tree_suffix(bits: Seq<bool>)
    ensures
        parse_tree(bits) matches Some((t, rest)) ==> rest.len() < bits.len() && rest == bits.skip(
            bits.len() - rest.len(),
        ),
    decreases bits.len(),
{
    if bits.len() > 0 && !bits[0] {
        lemma_parse_tree_suffix(bits.drop_first());
        if let Some((l, rest)) = parse_tree(bits.drop_first()) {
            assert(rest == bits.skip(bits.len() - rest.len()));
            lemma_parse_tree_suffix(rest);
            if let Some((r, rest2)) = parse_tree(rest) {
                assert(rest2 =~= bits.skip(bits.len() - rest2.len()));
            }
        }
    }
}

/// A stored tree reads back as itself, whatever follows it.
pub proof fn lemma_parse_tree_bits(t: HuffmanNode, rest: Seq<bool>)
    ensures
        parse_tree(tree_bits(t) + rest) == Some((t, rest)),
    decreases t,
{
    let b = tree_bits(t) + rest;
    match t {
        HuffmanNode::Leaf(s) => {
            assert(b.subrange(1, 9) =~= byte_bits(s));
            assert(b.skip(9) =~= rest);
            lemma_byte_of_bits(s);
        },
        HuffmanNode::Internal(l, r) => {
            assert(b.drop_first() =~= tree_bits(*l) + (tree_bits(*r) + rest));
            lemma_parse_tree_bits(*l, tree_bits(*r) + rest);
            lemma_parse_tree_bits(*r, rest);
        },
    }
}

/// Decodes one symbol: walks from the root of `t` along the bits to a leaf, and
/// gives its byte and the bits after the path, or `None` when the bits end first.
pub open spec fn walk(t: HuffmanNode, bits: Seq<bool>) -> Option<(u8, Seq<bool>)>
    decreases t,
{
    match t {
        HuffmanNode::Leaf(s) => Some((s, bits)),
        HuffmanNode::Internal(l, r) => if bits.len() == 0 {
            None
        } else if bits[0] {
            walk(*r, bits.drop_first())
        } else {
            walk(*l, bits.drop_first())
        },
    }
}

/// Decodes `n` symbols one after the other.
pub open spec fn walk_n(t: HuffmanNode, bits: Seq<bool>, n: nat) -> Option<Seq<u8>>
    decreases n,
{
    if n == 0 {
        Some(Seq::empty())
    } else {
        match walk(t, bits) {
            None => None,
            Some((s, rest)) => match walk_n(t, rest, (n - 1) as nat) {
                None => None,
                Some(tail) => Some(seq![s] + tail),
            },
        }
    }
}

/// The Huffman stream format: nothing for zero symbols; else a stored tree, then
/// the paths of the `n` symbols through it.
pub open spec fn huffman_decode_bits(bits: Seq<bool>, n: nat) -> Option<Seq<u8>> {
    if n == 0 {
        Some(Seq::empty())
    } else {
        match parse_tree(bits) {
            None => None,
            Some((t, rest)) => walk_n(t, rest, n),
        }
    }
}

/// What decoding `n` bytes from the byte string `input` gives.
pub open spec fn huffman_decode(input: Seq<u8>, n: nat) -> Option<Seq<u8>> {
    huffman_decode_bits(bytes_to_bits(input), n)
}

/// `path` leads from the root of `t` exactly to a leaf that holds `s`.
pub open spec fn reaches(t: HuffmanNode, path: Seq<bool>, s: u8) -> bool
    decreases t,
{
    match t {
        HuffmanNode::Leaf(x) => path.len() == 0 && x == s,
        HuffmanNode::Internal(l, r) => path.len() > 0 && if path[0] {
            reaches(*r, path.drop_first(), s)
        } else {
            reaches(*l, path.drop_first(), s)
        },
    }
}

pub proof fn lemma_reaches_walk(t: HuffmanNode, path: Seq<bool>, s: u8, rest: Seq<bool>)
    requires
        reaches(t, path, s),
    ensures
        walk(t, path + rest) == Some((s, rest)),
    decreases t,
{
    match t {
        HuffmanNode::Leaf(x) => {
            assert(path + rest =~= rest);
        },
        HuffmanNode::Internal(l, r) => {
            assert((path + rest).drop_first() =~= path.drop_first() + rest);
            if path[0] {
                lemma_reaches_walk(*r, path.drop_first(), s, rest);
            } else {
                lemma_reaches_walk(*l, path.drop_first(), s, rest);
            }
        },
    }
}

/// The path of a code table entry: its length many low bits of its code.
pub open spec fn code_path(entry: (u32, u8)) -> Seq<bool> {
    low_bits(entry.0 as u64, entry.1 as nat)
}

/// The paths of the symbols of `data`, one after the other.
pub open spec fn code_paths(table: Seq<(u32, u8)>, data: Seq<u8>) -> Seq<bool>
    decreases data.len(),
{
    if data.len() == 0 {
        Seq::empty()
    } else {
        code_path(table[data[0] as int]) + code_paths(table, data.drop_first())
    }
}

pub proof fn lemma_code_paths_push(table: Seq<(u32, u8)>, data: Seq<u8>, x: u8)
    ensures
        code_paths(table, data.push(x)) == code_paths(table, data) + code_path(table[x as int]),
    decreases data.len(),
{
    if data.len() == 0 {
        assert(data.push(x).drop_first() =~= Seq::<u8>::empty());
        assert(code_paths(table, data.push(x).drop_first()) =~= Seq::<bool>::empty());
        assert(code_paths(table, data.push(x)) =~= code_path(table[x as int]));
    } else {
        assert(data.push(x).drop_first() =~= data.drop_first().push(x));
        lemma_code_paths_push(table, data.drop_first(), x);
        assert(code_paths(table, data.push(x)) =~= code_paths(table, data) + code_path(
            table[x as int],
        ));
    }
}

/// When each symbol's path reaches it, walking the paths of the symbols of
/// `data` gives `data` back.
pub proof fn lemma_walk_code_paths(
    t: HuffmanNode,
    table: Seq<(u32, u8)>,
    data: Seq<u8>,
    rest: Seq<bool>,
)
    requires
        forall|i: int| 0 <= i < data.len() ==> reaches(t, code_path(table[data[i] as int]), data[i]),
    ensures
        walk_n(t, code_paths(table, data) + rest, data.len()) == Some(data),
    decreases data.len(),
{
    if data.len() == 0 {
        assert(walk_n(t, code_paths(table, data) + rest, 0) == Some(Seq::<u8>::empty()));
        assert(data =~= Seq::<u8>::empty());
    } else {
        let p = code_path(table[data[0] as int]);
        let tail = code_paths(table, data.drop_first()) + rest;
        assert(code_paths(table, data) + rest =~= p + tail);
        assert(reaches(t, p, data[0]));
        lemma_reaches_walk(t, p, data[0], tail);
        assert forall|i: int| 0 <= i < data.drop_first().len() implies reaches(
            t,
            code_path(table[data.drop_first()[i] as int]),
            data.drop_first()[i],
        ) by {
            assert(data.drop_first()[i] == data[i + 1]);
        }
        lemma_walk_code_paths(t, table, data.drop_first(), rest);
        assert(seq![data[0]] + data.drop_first() =~= data);
    }
}

/// `t` has a leaf that holds `s`.
pub open spec fn has_leaf(t: HuffmanNode, s: u8) -> bool
    decreases t,
{
    match t {
        HuffmanNode::Leaf(x) => x == s,
        HuffmanNode::Internal(l, r) => has_leaf(*l, s) || has_leaf(*r, s),
    }
}

/// The length of the longest path from the root of `t` to a leaf.
pub open spec fn tree_depth(t: HuffmanNode) -> nat
    decreases t,
{
    match t {
        HuffmanNode::Leaf(_) => 0,
        HuffmanNode::Internal(l, r) => 1 + if tree_depth(*l) >= tree_depth(*r) {
            tree_depth(*l)
        } else {
            tree_depth(*r)
        },
    }
}

/// The number of leaves of `t`.
pub open spec fn leaf_count(t: HuffmanNode) -> nat
    decreases t,
{
    match t {
        HuffmanNode::Leaf(_) => 1,
        HuffmanNode::Internal(l, r) => leaf_count(*l) + leaf_count(*r),
    }
}

/// The weight of `t`: the sum of the frequencies of its leaves.
pub open spec fn weight(t: HuffmanNode, freq: Seq<usize>) -> nat
    decreases t,
{
    match t {
        HuffmanNode::Leaf(s) => freq[s as int] as nat,
        HuffmanNode::Internal(l, r) => weight(*l, freq) + weight(*r, freq),
    }
}

/// The Fibonacci numbers.
pub open spec fn fib(n: nat) -> nat
    decreases n,
{
    if n == 0 {
        0
    } else if n == 1 {
        1
    } else {
        fib((n - 1) as nat) + fib((n - 2) as nat)
    }
}

pub proof fn lemma_fib_monotone(i: nat, j: nat)
    requires
        i <= j,
    ensures
        fib(i) <= fib(j),
    decreases j - i,
{
    if i < j {
        lemma_fib_monotone(i, (j - 1) as nat);
        if j >= 2 {
            assert(fib(j) == fib((j - 1) as nat) + fib((j - 2) as nat));
        }
    }
}

/// The Fibonacci number that bounds the weight of a tree deeper than 32.
pub proof fn lemma_fib_35()
    ensures
        fib(35) == 9227465,
{
    assert(fib(0) == 0);
    assert(fib(1) == 1);
    assert(fib(2) == 1);
    assert(fib(3) == 2);
    assert(fib(4) == 3);
    assert(fib(5) == 5);
    assert(fib(6) == 8);
    assert(fib(7) == 13);
    assert(fib(8) == 21);
    assert(fib(9) == 34);
    assert(fib(10) == 55);
    assert(fib(11) == 89);
    assert(fib(12) == 144);
    assert(fib(13) == 233);
    assert(fib(14) == 377);
    assert(fib(15) == 610);
    assert(fib(16) == 987);
    assert(fib(17) == 1597);
    assert(fib(18) == 2584);
    assert(fib(19) == 4181);
    assert(fib(20) == 6765);
    assert(fib(21) == 10946);
    assert(fib(22) == 17711);
    assert(fib(23) == 28657);
    assert(fib(24) == 46368);
    assert(fib(25) == 75025);
    assert(fib(26) == 121393);
    assert(fib(27) == 196418);
    assert(fib(28) == 317811);
    assert(fib(29) == 514229);
    assert(fib(30) == 832040);
    assert(fib(31) == 1346269);
    assert(fib(32) == 2178309);
    assert(fib(33) == 3524578);
    assert(fib(34) == 5702887);
    assert(fib(35) == 9227465);
}

/// A tree built by repeatedly joining the two lightest trees: each leaf has a
/// positive frequency, and each subtree weighs at least the Fibonacci number
/// two above its depth.
pub open spec fn balanced(t: HuffmanNode, freq: Seq<usize>) -> bool
    decreases t,
{
    match t {
        HuffmanNode::Leaf(s) => freq[s as int] >= 1,
        HuffmanNode::Internal(l, r) => {
            &&& balanced(*l, freq)
            &&& balanced(*r, freq)
            &&& weight(t, freq) >= fib(tree_depth(t) + 2)
        },
    }
}

pub proof fn lemma_balanced_weight(t: HuffmanNode, freq: Seq<usize>)
    requires
        balanced(t, freq),
    ensures
        weight(t, freq) >= fib(tree_depth(t) + 2),
        leaf_count(t) <= weight(t, freq),
    decreases t,
{
    match t {
        HuffmanNode::Leaf(s) => {
            assert(fib(0) == 0 && fib(1) == 1);
            assert(fib(2) == 1);
        },
        HuffmanNode::Internal(l, r) => {
            lemma_balanced_weight(*l, freq);
            lemma_balanced_weight(*r, freq);
        },
    }
}

pub proof fn lemma_tree_bits_len(t: HuffmanNode)
    ensures
        tree_bits(t).len() + 1 == 10 * leaf_count(t),
    decreases t,
{
    match t {
        HuffmanNode::Leaf(s) => {},
        HuffmanNode::Internal(l, r) => {
            lemma_tree_bits_len(*l);
            lemma_tree_bits_len(*r);
        },
    }
}

pub proof fn lemma_code_paths_len(table: Seq<(u32, u8)>, data: Seq<u8>, max: nat)
    requires
        forall|i: int| 0 <= i < data.len() ==> table[data[i] as int].1 <= max,
    ensures
        code_paths(table, data).len() <= max * data.len(),
    decreases data.len(),
{
    if data.len() > 0 {
        assert forall|i: int| 0 <= i < data.drop_first().len() implies table[data.drop_first()[i] as int].1 <= max by {
            assert(data.drop_first()[i] == data[i + 1]);
        }
        lemma_code_paths_len(table, data.drop_first(), max);
        assert(max * data.len() == max * data.drop_first().len() + max) by (nonlinear_arith)
            requires
                data.drop_first().len() + 1 == data.len(),
        ;
    }
}

/// The sum of a frequency table.
pub open spec fn sum_freq(freq: Seq<usize>) -> nat
    decreases freq.len(),
{
    if freq.len() == 0 {
        0
    } else {
        sum_freq(freq.drop_last()) + freq.last() as nat
    }
}

pub proof fn lemma_sum_freq_update(freq: Seq<usize>, i: int, v: usize)
    requires
        0 <= i < freq.len(),
    ensures
        sum_freq(freq.update(i, v)) + freq[i] == sum_freq(freq) + v,
    decreases freq.len(),
{
    let u = freq.update(i, v);
    if i == freq.len() - 1 {
        assert(u.drop_last() =~= freq.drop_last());
    } else {
        assert(u.drop_last() =~= freq.drop_last().update(i, v));
        lemma_sum_freq_update(freq.drop_last(), i, v);
    }
}

pub proof fn lemma_sum_freq_zero(freq: Seq<usize>)
    requires
        forall|i: int| 0 <= i < freq.len() ==> freq[i] == 0,
    ensures
        sum_freq(freq) == 0,
    decreases freq.len(),
{
    if freq.len() > 0 {
        lemma_sum_freq_zero(freq.drop_last());
    }
}

/// The weight of the heavier subtree of an internal node; 0 for a leaf.
pub open spec fn child_max(t: HuffmanNode, freq: Seq<usize>) -> nat {
    match t {
        HuffmanNode::Leaf(_) => 0,
        HuffmanNode::Internal(l, r) => if weight(*l, freq) >= weight(*r, freq) {
            weight(*l, freq)
        } else {
            weight(*r, freq)
        },
    }
}

/// Joining two balanced trees, each at least as heavy as the subtrees of the
/// other, gives a balanced tree.
pub proof fn lemma_join_balanced(a: HuffmanNode, b: HuffmanNode, freq: Seq<usize>)
    requires
        balanced(a, freq),
        balanced(b, freq),
        weight(b, freq) >= child_max(a, freq),
        weight(a, freq) >= child_max(b, freq),
    ensures
        balanced(HuffmanNode::Internal(Box::new(a), Box::new(b)), freq),
{
    let c = HuffmanNode::Internal(Box::new(a), Box::new(b));
    lemma_balanced_weight(a, freq);
    lemma_balanced_weight(b, freq);
    let da = tree_depth(a);
    let db = tree_depth(b);
    if da >= db {
        lemma_join_deeper(a, b, freq);
    } else {
        lemma_join_deeper(b, a, freq);
    }
}

proof fn lemma_join_deeper(a: HuffmanNode, b: HuffmanNode, freq: Seq<usize>)
    requires
        balanced(a, freq),
        balanced(b, freq),
        weight(b, freq) >= child_max(a, freq),
        tree_depth(a) >= tree_depth(b),
    ensures
        weight(a, freq) + weight(b, freq) >= fib(tree_depth(a) + 3),
{
    lemma_balanced_weight(a, freq);
    lemma_balanced_weight(b, freq);
    let da = tree_depth(a);
    assert(fib(0) == 0 && fib(1) == 1);
    assert(fib(2) == 1);
    assert(fib(3) == 2);
    match a {
        HuffmanNode::Leaf(_) => {},
        HuffmanNode::Internal(a1, a2) => {
            lemma_balanced_weight(*a1, freq);
            lemma_balanced_weight(*a2, freq);
            if tree_depth(*a1) >= tree_depth(*a2) {
                assert(weight(b, freq) >= fib(da + 1));
            } else {
                assert(weight(b, freq) >= fib(da + 1));
            }
            assert(fib(da + 3) == fib(da + 2) + fib(da + 1));
        },
    }
}

/// A code table entry for `s`, made for the subtree `t` that hangs at `depth`
/// below the root on the path `code`: the entry starts with that path, is at
/// most as long as `t` is deep below it, and its rest leads through `t` to `s`.
pub open spec fn entry_for(entry: (u32, u8), code: u32, depth: nat, t: HuffmanNode, s: u8) -> bool {
    &&& depth <= entry.1 <= depth + tree_depth(t)
    &&& code_path(entry).take(depth as int) == low_bits(code as u64, depth)
    &&& reaches(t, code_path(entry).skip(depth as int), s)
}

pub proof fn lemma_sum_freq_le(freq: Seq<usize>, i: int)
    requires
        0 <= i < freq.len(),
    ensures
        freq[i] <= sum_freq(freq),
    decreases freq.len(),
{
    if i < freq.len() - 1 {
        lemma_sum_freq_le(freq.drop_last(), i);
    }
}

} // verus!
