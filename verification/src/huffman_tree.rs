//! How the Huffman tree of a frequency table is built, and what the encoder
//! writes with it.
use vstd::prelude::*;
use crate::bits::{byte_bits, bytes_to_bits, low_bits, padded};
use crate::code::{
    HuffmanNode, balanced, byte_of_bits, child_max, code_paths, fib, has_leaf, leaf_count,
    lemma_balanced_weight, lemma_byte_of_bits, lemma_fib_35, lemma_fib_monotone,
    lemma_join_balanced, lemma_sum_freq_le, lemma_sum_freq_update, lemma_sum_freq_zero, sum_freq,
    tree_bits, tree_depth, weight,
};

verus! {

/// A tree waiting to be joined, with its weight.
pub struct HeapItem {
    pub weight: usize,
    pub node: HuffmanNode,
}

/// The sum of the weights of the waiting trees.
pub open spec fn heap_total(h: Seq<HeapItem>) -> nat
    decreases h.len(),
{
    if h.len() == 0 {
        0
    } else {
        heap_total(h.drop_last()) + h.last().weight as nat
    }
}

pub proof fn lemma_heap_total_remove(h: Seq<HeapItem>, i: int)
    requires
        0 <= i < h.len(),
    ensures
        heap_total(h.remove(i)) + h[i].weight == heap_total(h),
    decreases h.len(),
{
    if i == h.len() - 1 {
        assert(h.remove(i) =~= h.drop_last());
    } else {
        assert(h.remove(i).drop_last() =~= h.drop_last().remove(i));
        assert(h.remove(i).last() == h.last());
        lemma_heap_total_remove(h.drop_last(), i);
    }
}

/// The waiting trees: each item's weight is that of its tree, each tree is
/// balanced, no tree is lighter than a subtree of another, every symbol that
/// occurs is a leaf of some tree, and the weights add up to the total.
pub open spec fn heap_inv(h: Seq<HeapItem>, freq: Seq<usize>) -> bool {
    &&& forall|i: int|
        0 <= i < h.len() ==> #[trigger] h[i].weight == weight(h[i].node, freq) && balanced(
            h[i].node,
            freq,
        )
    &&& forall|i: int, j: int|
        #![trigger h[i], h[j]]
        0 <= i < h.len() && 0 <= j < h.len() ==> h[i].weight >= child_max(h[j].node, freq)
    &&& forall|s: u8|
        #![trigger freq[s as int]]
        freq[s as int] > 0 ==> exists|i: int| 0 <= i < h.len() && #[trigger] has_leaf(h[i].node, s)
    &&& heap_total(h) == sum_freq(freq)
}

/// Joining the lightest tree with the next lightest keeps the invariant.
pub proof fn lemma_join_lightest(h0: Seq<HeapItem>, ia: int, ib: int, freq: Seq<usize>)
    requires
        heap_inv(h0, freq),
        sum_freq(freq) <= usize::MAX,
        0 <= ia < h0.len(),
        0 <= ib < h0.len() - 1,
        forall|j: int| 0 <= j < h0.len() ==> h0[ia].weight <= #[trigger] h0[j].weight,
        forall|j: int| 0 <= j < h0.len() - 1 ==> h0.remove(ia)[ib].weight <= #[trigger] h0.remove(ia)[j].weight,
    ensures
        ({
            let a = h0[ia];
            let b = h0.remove(ia)[ib];
            let h2 = h0.remove(ia).remove(ib);
            &&& a.weight + b.weight <= sum_freq(freq)
            &&& heap_inv(
                h2.push(
                    HeapItem {
                        weight: (a.weight + b.weight) as usize,
                        node: HuffmanNode::Internal(Box::new(a.node), Box::new(b.node)),
                    },
                ),
                freq,
            )
        }),
{
    let a = h0[ia];
    let h1 = h0.remove(ia);
    let b = h1[ib];
    let h2 = h1.remove(ib);
    h0.remove_ensures(ia);
    h1.remove_ensures(ib);
    let jb = if ib < ia { ib } else { ib + 1 };
    assert(h0[jb] == b);
    lemma_heap_total_remove(h0, ia);
    lemma_heap_total_remove(h1, ib);
    let cn = HuffmanNode::Internal(Box::new(a.node), Box::new(b.node));
    let c = HeapItem { weight: (a.weight + b.weight) as usize, node: cn };
    let h3 = h2.push(c);
    // where the items of h2 stand in h0
    let ghost pos = |k: int| {
        let k1 = if k < ib { k } else { k + 1 };
        if k1 < ia { k1 } else { k1 + 1 }
    };
    assert forall|k: int| 0 <= k < h2.len() implies 0 <= #[trigger] pos(k) < h0.len() && h2[k]
        == h0[pos(k)] && pos(k) != ia && pos(k) != jb by {
        let k1 = if k < ib { k } else { k + 1 };
        assert(h2[k] == h1[k1]);
        assert(h1[k1] == h0[pos(k)]);
    }
    assert(h0[ia].weight == weight(a.node, freq) && balanced(a.node, freq));
    assert(h0[jb].weight == weight(b.node, freq) && balanced(b.node, freq));
    assert(h0[jb].weight >= child_max(h0[ia].node, freq));
    assert(h0[ia].weight >= child_max(h0[jb].node, freq));
    lemma_join_balanced(a.node, b.node, freq);
    assert forall|i: int|
        0 <= i < h3.len() implies #[trigger] h3[i].weight == weight(h3[i].node, freq) && balanced(
        h3[i].node,
        freq,
    ) by {
        if i < h2.len() {
            assert(h3[i] == h0[pos(i)]);
        }
    }
    assert forall|i: int, j: int| 0 <= i < h3.len() && 0 <= j < h3.len() implies #[trigger] h3[i].weight
        >= child_max(#[trigger] h3[j].node, freq) by {
        if i < h2.len() && j < h2.len() {
            assert(h3[i] == h0[pos(i)]);
            assert(h3[j] == h0[pos(j)]);
            assert(h0[pos(i)].weight >= child_max(h0[pos(j)].node, freq));
        } else if i < h2.len() {
            let k1 = if i < ib { i } else { i + 1 };
            assert(h3[i] == h1[k1]);
            assert(h1[ib].weight <= h1[k1].weight);
            assert(h1[k1] == h0[pos(i)]);
            assert(h0[ia].weight <= h0[pos(i)].weight);
        } else if j < h2.len() {
            assert(h3[j] == h0[pos(j)]);
            assert(h0[ia].weight >= child_max(h0[pos(j)].node, freq));
        } else {
        }
    }
    assert forall|s: u8| #![trigger freq[s as int]] freq[s as int] > 0 implies exists|i: int|
        0 <= i < h3.len() && #[trigger] has_leaf(h3[i].node, s) by {
        let j = choose|j: int| 0 <= j < h0.len() && #[trigger] has_leaf(h0[j].node, s);
        if j == ia || j == jb {
            assert(has_leaf(h3[h2.len() as int].node, s));
        } else {
            let k1 = if j < ia { j } else { j - 1 };
            let k = if k1 < ib { k1 } else { k1 - 1 };
            assert(pos(k) == j);
            assert(has_leaf(h3[k].node, s));
        }
    }
    assert(h3.drop_last() =~= h2);
}

/// The index of the first lightest among the first `k` trees.
pub open spec fn first_min_upto(h: Seq<HeapItem>, k: nat) -> int
    decreases k,
{
    if k <= 1 {
        0
    } else {
        let b = first_min_upto(h, (k - 1) as nat);
        if h[k - 1].weight < h[b].weight {
            k - 1
        } else {
            b
        }
    }
}

/// The index of the first lightest tree.
pub open spec fn first_min(h: Seq<HeapItem>) -> int {
    first_min_upto(h, h.len())
}

pub proof fn lemma_first_min_upto(h: Seq<HeapItem>, k: nat)
    requires
        1 <= k <= h.len(),
    ensures
        0 <= first_min_upto(h, k) < k,
        forall|j: int| 0 <= j < k ==> h[first_min_upto(h, k)].weight <= #[trigger] h[j].weight,
    decreases k,
{
    if k > 1 {
        lemma_first_min_upto(h, (k - 1) as nat);
    }
}

/// One joining step: the first lightest tree and the first lightest of the
/// rest are taken out, and their join, lighter one on the left, goes last.
pub open spec fn join_two(h: Seq<HeapItem>) -> Seq<HeapItem> {
    let ia = first_min(h);
    let a = h[ia];
    let h1 = h.remove(ia);
    let ib = first_min(h1);
    let b = h1[ib];
    h1.remove(ib).push(
        HeapItem {
            weight: (a.weight + b.weight) as usize,
            node: HuffmanNode::Internal(Box::new(a.node), Box::new(b.node)),
        },
    )
}

/// Joins until one tree is left.
pub open spec fn join_all(h: Seq<HeapItem>) -> Seq<HeapItem>
    decreases h.len(),
{
    if h.len() <= 1 {
        h
    } else {
        let n = join_two(h);
        if n.len() < h.len() {
            join_all(n)
        } else {
            h
        }
    }
}

/// A leaf for each of the first `k` bytes that occurs, in byte order.
pub open spec fn leaf_items(freq: Seq<usize>, k: nat) -> Seq<HeapItem>
    decreases k,
{
    if k == 0 {
        Seq::empty()
    } else {
        let h = leaf_items(freq, (k - 1) as nat);
        if freq[k - 1] > 0 {
            h.push(HeapItem { weight: freq[k - 1], node: HuffmanNode::Leaf((k - 1) as u8) })
        } else {
            h
        }
    }
}

/// The Huffman tree of a frequency table of 256 bytes: `None` when no byte
/// occurs; for a single byte `s`, `s` on the left of a leaf for byte 0; else
/// the tree left when the leaves are joined (see [`join_two`]).
pub open spec fn huffman_tree(freq: Seq<usize>) -> Option<HuffmanNode> {
    let h = leaf_items(freq, 256);
    if h.len() == 0 {
        None
    } else if h.len() == 1 {
        Some(HuffmanNode::Internal(Box::new(h[0].node), Box::new(HuffmanNode::Leaf(0))))
    } else {
        Some(join_all(h)[0].node)
    }
}

pub proof fn lemma_leaf_items(freq: Seq<usize>, k: nat)
    requires
        k <= freq.len(),
        k <= 256,
    ensures
        ({
            let h = leaf_items(freq, k);
            &&& h.len() <= k
            &&& forall|i: int|
                0 <= i < h.len() ==> #[trigger] h[i].weight == weight(h[i].node, freq) && balanced(
                    h[i].node,
                    freq,
                ) && h[i].node is Leaf
            &&& forall|s: u8|
                #![trigger freq[s as int]]
                s < k && freq[s as int] > 0 ==> exists|i: int|
                    0 <= i < h.len() && #[trigger] has_leaf(h[i].node, s)
            &&& heap_total(h) == sum_freq(freq.take(k as int))
            &&& h.len() == 0 ==> forall|s: int| 0 <= s < k ==> freq[s] == 0
        }),
    decreases k,
{
    if k == 0 {
        assert(freq.take(0) =~= Seq::<usize>::empty());
    } else {
        let km = (k - 1) as nat;
        lemma_leaf_items(freq, km);
        let h = leaf_items(freq, km);
        assert(freq.take(k as int).drop_last() =~= freq.take(km as int));
        let nh = leaf_items(freq, k);
        assert(sum_freq(freq.take(k as int)) == sum_freq(freq.take(km as int)) + freq[km as int]);
        if freq[km as int] == 0 {
            assert(nh == h);
        } else {
            assert(nh.drop_last() =~= h);
            assert(nh[h.len() as int].weight == weight(nh[h.len() as int].node, freq));
            assert forall|s: u8| #![trigger freq[s as int]] s < k && freq[s as int] > 0 implies exists|i: int|
                0 <= i < nh.len() && #[trigger] has_leaf(nh[i].node, s) by {
                if s == km {
                    assert(has_leaf(nh[h.len() as int].node, s));
                } else {
                    let i = choose|i: int| 0 <= i < h.len() && #[trigger] has_leaf(h[i].node, s);
                    assert(nh[i] == h[i]);
                    assert(has_leaf(nh[i].node, s));
                }
            }
        }
    }
}

pub proof fn lemma_join_all(h: Seq<HeapItem>, freq: Seq<usize>)
    requires
        heap_inv(h, freq),
        sum_freq(freq) <= usize::MAX,
        h.len() >= 1,
    ensures
        join_all(h).len() == 1,
        heap_inv(join_all(h), freq),
    decreases h.len(),
{
    if h.len() > 1 {
        lemma_first_min_upto(h, h.len());
        let ia = first_min(h);
        let h1 = h.remove(ia);
        h.remove_ensures(ia);
        lemma_first_min_upto(h1, h1.len());
        let ib = first_min(h1);
        lemma_join_lightest(h, ia, ib, freq);
        lemma_join_all(join_two(h), freq);
    }
}

/// No byte has two leaves in the tree.
pub open spec fn distinct_leaves(t: HuffmanNode) -> bool
    decreases t,
{
    match t {
        HuffmanNode::Leaf(_) => true,
        HuffmanNode::Internal(l, r) => {
            &&& distinct_leaves(*l)
            &&& distinct_leaves(*r)
            &&& forall|s: u8| !(#[trigger] has_leaf(*l, s) && #[trigger] has_leaf(*r, s))
        },
    }
}

/// No byte has two leaves among the waiting trees.
pub open spec fn disjoint_items(h: Seq<HeapItem>) -> bool {
    &&& forall|i: int| 0 <= i < h.len() ==> distinct_leaves(#[trigger] h[i].node)
    &&& forall|i: int, j: int, s: u8|
        0 <= i < h.len() && 0 <= j < h.len() && i != j ==> !(#[trigger] has_leaf(h[i].node, s)
            && #[trigger] has_leaf(h[j].node, s))
}

/// A joining step keeps the leaves of the waiting trees apart.
proof fn lemma_join_two_disjoint(h: Seq<HeapItem>)
    requires
        disjoint_items(h),
        h.len() >= 2,
    ensures
        disjoint_items(join_two(h)),
        join_two(h).len() == h.len() - 1,
{
    lemma_first_min_upto(h, h.len());
    let ia = first_min(h);
    let a = h[ia];
    let h1 = h.remove(ia);
    h.remove_ensures(ia);
    lemma_first_min_upto(h1, h1.len());
    let ib = first_min(h1);
    let b = h1[ib];
    let h2 = h1.remove(ib);
    h1.remove_ensures(ib);
    let jb = if ib < ia { ib } else { ib + 1 };
    assert(h[jb] == b);
    let cn = HuffmanNode::Internal(Box::new(a.node), Box::new(b.node));
    let h3 = join_two(h);
    assert(h3 == h2.push(HeapItem { weight: (a.weight + b.weight) as usize, node: cn }));
    let ghost pos = |k: int| {
        let k1 = if k < ib { k } else { k + 1 };
        if k1 < ia { k1 } else { k1 + 1 }
    };
    assert forall|k: int| 0 <= k < h2.len() implies 0 <= #[trigger] pos(k) < h.len() && h2[k]
        == h[pos(k)] && pos(k) != ia && pos(k) != jb by {
        let k1 = if k < ib { k } else { k + 1 };
        assert(h2[k] == h1[k1]);
    }
    assert(distinct_leaves(a.node) && distinct_leaves(b.node));
    assert forall|s: u8| !(#[trigger] has_leaf(a.node, s) && #[trigger] has_leaf(b.node, s)) by {
        assert(!(has_leaf(h[ia].node, s) && has_leaf(h[jb].node, s)));
    }
    assert(distinct_leaves(cn));
    assert forall|i: int| 0 <= i < h3.len() implies distinct_leaves(#[trigger] h3[i].node) by {
        if i < h2.len() {
            assert(h3[i] == h[pos(i)]);
        }
    }
    assert forall|i: int, j: int, s: u8|
        0 <= i < h3.len() && 0 <= j < h3.len() && i != j implies !(#[trigger] has_leaf(h3[i].node, s)
        && #[trigger] has_leaf(h3[j].node, s)) by {
        if i < h2.len() && j < h2.len() {
            assert(h3[i] == h[pos(i)] && h3[j] == h[pos(j)]);
            assert(pos(i) != pos(j));
        } else if i < h2.len() {
            assert(h3[i] == h[pos(i)]);
            assert(!(has_leaf(h[pos(i)].node, s) && has_leaf(h[ia].node, s)));
            assert(!(has_leaf(h[pos(i)].node, s) && has_leaf(h[jb].node, s)));
        } else if j < h2.len() {
            assert(h3[j] == h[pos(j)]);
            assert(!(has_leaf(h[pos(j)].node, s) && has_leaf(h[ia].node, s)));
            assert(!(has_leaf(h[pos(j)].node, s) && has_leaf(h[jb].node, s)));
        }
    }
}

proof fn lemma_join_all_disjoint(h: Seq<HeapItem>)
    requires
        disjoint_items(h),
        h.len() >= 1,
    ensures
        disjoint_items(join_all(h)),
        join_all(h).len() == 1,
    decreases h.len(),
{
    if h.len() > 1 {
        lemma_join_two_disjoint(h);
        lemma_join_all_disjoint(join_two(h));
    }
}

/// What the Huffman tree of a frequency table is like.
pub proof fn lemma_huffman_tree(freq: Seq<usize>)
    requires
        freq.len() == 256,
        sum_freq(freq) <= usize::MAX,
    ensures
        huffman_tree(freq) is None <==> forall|s: int| 0 <= s < 256 ==> freq[s] == 0,
        huffman_tree(freq) matches Some(t) ==> {
            &&& forall|s: u8| freq[s as int] > 0 ==> #[trigger] has_leaf(t, s)
            &&& forall|s: u8| #[trigger] has_leaf(t, s) ==> freq[s as int] > 0 || s == 0
            &&& tree_depth(t) <= 1 || fib(tree_depth(t) + 2) <= sum_freq(freq)
            &&& leaf_count(t) <= sum_freq(freq) + 1
        },
        forall|s0: u8|
            #[trigger] freq[s0 as int] > 0 && (forall|s: u8| #[trigger] freq[s as int] > 0 ==> s == s0)
                ==> huffman_tree(freq) == Some(
                HuffmanNode::Internal(
                    Box::new(HuffmanNode::Leaf(s0)),
                    Box::new(HuffmanNode::Leaf(0)),
                ),
            ),
{
    lemma_leaf_items(freq, 256);
    let h = leaf_items(freq, 256);
    assert(freq.take(256) =~= freq);
    if h.len() == 0 {
        return;
    }
    assert forall|i: int, j: int| 0 <= i < h.len() && 0 <= j < h.len() implies #[trigger] h[i].weight
        >= child_max(#[trigger] h[j].node, freq) by {
        assert(h[j].weight == weight(h[j].node, freq));
        assert(h[j].node is Leaf);
    }
    assert(heap_inv(h, freq));
    if h.len() == 1 {
        let single = h[0];
        assert(single.weight == weight(single.node, freq));
        assert(single.node is Leaf);
        let t = HuffmanNode::Internal(Box::new(single.node), Box::new(HuffmanNode::Leaf(0)));
        assert(tree_depth(single.node) == 0);
        assert(tree_depth(HuffmanNode::Leaf(0)) == 0);
        assert(leaf_count(HuffmanNode::Leaf(0)) == 1);
        assert(leaf_count(single.node) == 1);
        assert(h.drop_last() =~= Seq::<HeapItem>::empty());
        assert(heap_total(Seq::<HeapItem>::empty()) == 0);
        assert(sum_freq(freq) == single.weight);
        assert forall|s: u8| freq[s as int] > 0 implies #[trigger] has_leaf(t, s) by {
            assert(freq[s as int] > 0);
            assert(has_leaf(single.node, s));
        }
        let s1 = single.node->Leaf_0;
        assert(single.node == HuffmanNode::Leaf(s1));
        assert(freq[s1 as int] > 0);
        assert forall|s: u8| #[trigger] has_leaf(t, s) implies freq[s as int] > 0 || s == 0 by {
            assert(has_leaf(single.node, s) || has_leaf(HuffmanNode::Leaf(0), s));
            if has_leaf(single.node, s) {
                assert(s == s1);
            } else {
                assert(s == 0);
            }
        }
        assert forall|s0: u8|
            #[trigger] freq[s0 as int] > 0 && (forall|s: u8| #[trigger] freq[s as int] > 0 ==> s == s0)
            implies huffman_tree(freq)
            == Some(
            HuffmanNode::Internal(
                Box::new(HuffmanNode::Leaf(s0)),
                Box::new(HuffmanNode::Leaf(0)),
            ),
        ) by {
            assert(freq[s1 as int] > 0);
            assert(s1 == s0);
        }
    } else {
        lemma_join_all(h, freq);
        let j = join_all(h);
        let t = j[0].node;
        assert(j[0].weight == weight(t, freq) && balanced(t, freq));
        assert(j.drop_last() =~= Seq::<HeapItem>::empty());
        assert(heap_total(Seq::<HeapItem>::empty()) == 0);
        assert(heap_total(j) == j[0].weight);
        lemma_balanced_weight(t, freq);
        assert forall|s: u8| freq[s as int] > 0 implies #[trigger] has_leaf(t, s) by {
            assert(freq[s as int] > 0);
            let i = choose|i: int| 0 <= i < j.len() && #[trigger] has_leaf(j[i].node, s);
            assert(i == 0);
        }
        assert forall|s: u8| #[trigger] has_leaf(t, s) implies freq[s as int] > 0 || s == 0 by {
            lemma_balanced_leaf(t, freq, s);
        }
        assert forall|s0: u8|
            #[trigger] freq[s0 as int] > 0 && (forall|s: u8| #[trigger] freq[s as int] > 0 ==> s == s0)
            implies huffman_tree(freq)
            == Some(
            HuffmanNode::Internal(
                Box::new(HuffmanNode::Leaf(s0)),
                Box::new(HuffmanNode::Leaf(0)),
            ),
        ) by {
            let a = h[0].node->Leaf_0;
            let b = h[1].node->Leaf_0;
            assert(h[0].weight == weight(h[0].node, freq) && h[0].node is Leaf);
            assert(h[1].weight == weight(h[1].node, freq) && h[1].node is Leaf);
            assert(balanced(h[0].node, freq) && balanced(h[1].node, freq));
            lemma_leaf_items_distinct(freq, 256);
            assert(freq[a as int] > 0 && freq[b as int] > 0);
            assert(a == s0 && b == s0);
        }
    }
}

/// No byte has two leaves in the Huffman tree, except when byte 0 is the only
/// byte that occurs: then its leaf stands beside the added leaf for byte 0.
pub proof fn lemma_huffman_tree_distinct(freq: Seq<usize>)
    requires
        freq.len() == 256,
    ensures
        huffman_tree(freq) matches Some(t) ==> (distinct_leaves(t) || forall|s: u8|
            #[trigger] freq[s as int] > 0 ==> s == 0),
{
    let h = leaf_items(freq, 256);
    lemma_leaf_items_distinct(freq, 256);
    if h.len() == 1 {
        let s1 = h[0].node->Leaf_0;
        let t = HuffmanNode::Internal(Box::new(h[0].node), Box::new(HuffmanNode::Leaf(0)));
        assert(h[0].node is Leaf);
        assert(h[0].node == HuffmanNode::Leaf(s1));
        if s1 != 0 {
            assert forall|s: u8| !(#[trigger] has_leaf(HuffmanNode::Leaf(s1), s) && #[trigger] has_leaf(
                HuffmanNode::Leaf(0),
                s,
            )) by {}
            assert(distinct_leaves(HuffmanNode::Leaf(s1)) && distinct_leaves(HuffmanNode::Leaf(0)));
            assert(distinct_leaves(t));
        } else {
            lemma_leaf_items(freq, 256);
            assert forall|s: u8| #[trigger] freq[s as int] > 0 implies s == 0 by {
                let i = choose|i: int| 0 <= i < h.len() && #[trigger] has_leaf(h[i].node, s);
                assert(i == 0);
            }
        }
    } else if h.len() > 1 {
        assert forall|i: int, k: int, s: u8|
            0 <= i < h.len() && 0 <= k < h.len() && i != k implies !(#[trigger] has_leaf(h[i].node, s)
            && #[trigger] has_leaf(h[k].node, s)) by {
            assert(h[i].node is Leaf && h[k].node is Leaf);
            if i < k {
                assert(h[i].node->Leaf_0 < h[k].node->Leaf_0);
            } else {
                assert(h[k].node->Leaf_0 < h[i].node->Leaf_0);
            }
        }
        assert forall|i: int| 0 <= i < h.len() implies distinct_leaves(#[trigger] h[i].node) by {
            assert(h[i].node is Leaf);
        }
        lemma_join_all_disjoint(h);
        assert(distinct_leaves(join_all(h)[0].node));
    }
}

/// Each leaf of a balanced tree holds a byte that occurs.
pub proof fn lemma_balanced_leaf(t: HuffmanNode, freq: Seq<usize>, s: u8)
    requires
        balanced(t, freq),
        has_leaf(t, s),
    ensures
        freq[s as int] > 0,
    decreases t,
{
    match t {
        HuffmanNode::Leaf(_) => {},
        HuffmanNode::Internal(l, r) => {
            if has_leaf(*l, s) {
                lemma_balanced_leaf(*l, freq, s);
            } else {
                lemma_balanced_leaf(*r, freq, s);
            }
        },
    }
}

/// The leaves come in increasing byte order, so no byte has two of them.
pub proof fn lemma_leaf_items_distinct(freq: Seq<usize>, k: nat)
    requires
        k <= freq.len(),
        k <= 256,
    ensures
        forall|i: int, j: int|
            0 <= i < j < leaf_items(freq, k).len() ==> ((#[trigger] leaf_items(freq, k)[i]).node->Leaf_0
                < (#[trigger] leaf_items(freq, k)[j]).node->Leaf_0),
        forall|i: int|
            0 <= i < leaf_items(freq, k).len() ==> ((#[trigger] leaf_items(freq, k)[i]).node is Leaf
                && leaf_items(freq, k)[i].node->Leaf_0 < k),
    decreases k,
{
    if k > 0 {
        let km = (k - 1) as nat;
        lemma_leaf_items_distinct(freq, km);
        let h = leaf_items(freq, km);
        let nh = leaf_items(freq, k);
        if freq[km as int] > 0 {
            assert forall|i: int| 0 <= i < nh.len() implies (#[trigger] nh[i]).node is Leaf && nh[i].node->Leaf_0 < k by {
                if i < h.len() {
                    assert(nh[i] == h[i]);
                }
            }
            assert forall|i: int, j: int| 0 <= i < j < nh.len() implies (#[trigger] nh[i]).node->Leaf_0
                < (#[trigger] nh[j]).node->Leaf_0 by {
                assert(nh[i] == h[i]);
                if j < h.len() {
                    assert(nh[j] == h[j]);
                }
            }
        }
    }
}

/// How often each byte occurs in `data`.
pub open spec fn freq_of(data: Seq<u8>) -> Seq<usize>
    decreases data.len(),
{
    if data.len() == 0 {
        Seq::new(256, |i: int| 0usize)
    } else {
        let f = freq_of(data.drop_last());
        f.update(data.last() as int, (f[data.last() as int] + 1) as usize)
    }
}

pub proof fn lemma_freq_of(data: Seq<u8>)
    requires
        data.len() <= usize::MAX,
    ensures
        freq_of(data).len() == 256,
        sum_freq(freq_of(data)) == data.len(),
        forall|j: int| 0 <= j < data.len() ==> freq_of(data)[#[trigger] data[j] as int] > 0,
    decreases data.len(),
{
    if data.len() == 0 {
        lemma_sum_freq_zero(freq_of(data));
    } else {
        let d = data.drop_last();
        lemma_freq_of(d);
        let f = freq_of(d);
        let x = data.last() as int;
        lemma_sum_freq_le(f, x);
        lemma_sum_freq_update(f, x, (f[x] + 1) as usize);
        assert forall|j: int| 0 <= j < data.len() implies freq_of(data)[#[trigger] data[j] as int] > 0 by {
            if j < d.len() {
                assert(data[j] == d[j]);
            }
        }
    }
}

/// Gives each leaf of `t` its path as code: the path to `t` is the `depth` low
/// bits of `code`; a left step adds a 0 bit, a right step a 1. Leaves further
/// right overwrite the entry of an earlier leaf with the same byte.
pub open spec fn assign_codes(t: HuffmanNode, code: u32, depth: u8, table: Seq<(u32, u8)>) -> Seq<
    (u32, u8),
>
    decreases t,
{
    match t {
        HuffmanNode::Leaf(s) => table.update(s as int, (code, depth)),
        HuffmanNode::Internal(l, r) => assign_codes(
            *r,
            code | (1u32 << depth),
            (depth + 1) as u8,
            assign_codes(*l, code, (depth + 1) as u8, table),
        ),
    }
}

/// The code table of a tree: each leaf's path from the root, as its code and
/// its length.
pub open spec fn code_table(t: HuffmanNode) -> Seq<(u32, u8)> {
    assign_codes(t, 0, 0, Seq::new(256, |i: int| (0u32, 0u8)))
}

/// Bits packed into bytes, eight at a time, least significant first.
pub open spec fn bits_to_bytes(b: Seq<bool>) -> Seq<u8> {
    Seq::new(b.len() / 8, |j: int| byte_of_bits(b.subrange(8 * j, 8 * j + 8)))
}

pub proof fn lemma_bits_to_bytes(v: Seq<u8>)
    ensures
        bits_to_bytes(bytes_to_bits(v)) == v,
{
    let b = bytes_to_bits(v);
    assert(b.len() / 8 == v.len()) by (nonlinear_arith)
        requires
            b.len() == v.len() * 8,
    ;
    assert forall|j: int| 0 <= j < v.len() implies #[trigger] bits_to_bytes(b)[j] == v[j] by {
        assert forall|i: int| 0 <= i < 8 implies b.subrange(8 * j, 8 * j + 8)[i] == byte_bits(v[j])[i] by {
            assert((8 * j + i) / 8 == j && (8 * j + i) % 8 == i) by (nonlinear_arith)
                requires
                    0 <= i < 8,
            ;
        }
        assert(b.subrange(8 * j, 8 * j + 8) =~= byte_bits(v[j]));
        lemma_byte_of_bits(v[j]);
    }
    assert(bits_to_bytes(b) =~= v);
}

/// What [`encode`](crate::huffman::encode) writes for `data`: nothing when it
/// is empty; else its Huffman tree in pre-order, then the code of each byte,
/// completed with zero bits to a whole byte.
pub open spec fn huffman_encode(data: Seq<u8>) -> Seq<u8> {
    match huffman_tree(freq_of(data)) {
        None => Seq::empty(),
        Some(t) => bits_to_bytes(padded(tree_bits(t) + code_paths(code_table(t), data))),
    }
}

/// The Huffman tree of fewer than 9,227,465 bytes (the 35th Fibonacci number)
/// is at most 32 levels deep, so its codes fit a `u32`.
pub proof fn lemma_short_data_shallow_tree(data: Seq<u8>)
    requires
        data.len() < 9227465,
    ensures
        huffman_tree(freq_of(data)) matches Some(t) ==> tree_depth(t) <= 32,
{
    lemma_freq_of(data);
    lemma_huffman_tree(freq_of(data));
    if let Some(t) = huffman_tree(freq_of(data)) {
        if tree_depth(t) > 32 {
            lemma_fib_monotone(35, tree_depth(t) + 2);
            lemma_fib_35();
        }
    }
}

} // verus!
