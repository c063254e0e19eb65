//! The Huffman tree has the least weighted path length of all code trees for
//! the same bytes: no prefix code takes fewer bits for the data.
use vstd::prelude::*;
use vstd::multiset::Multiset;
use crate::code::{HuffmanNode, child_max, has_leaf, leaf_count, sum_freq, tree_depth, weight};
use crate::code::{code_path, code_paths, lemma_code_paths_push, lemma_sum_freq_le};
use crate::huffman_tree::{
    HeapItem, assign_codes, code_table, distinct_leaves, first_min, freq_of, heap_inv, huffman_tree,
    join_all, join_two, leaf_items, lemma_first_min_upto, lemma_freq_of, lemma_huffman_tree,
    lemma_huffman_tree_distinct, lemma_join_lightest, lemma_leaf_items,
};

verus! {

broadcast use vstd::multiset::group_multiset_axioms;

/// The weight of the leaves of `t`, each leaf weighing `w` of its byte.
pub open spec fn tree_weight(t: HuffmanNode, w: Seq<nat>) -> nat
    decreases t,
{
    match t {
        HuffmanNode::Leaf(s) => w[s as int],
        HuffmanNode::Internal(l, r) => tree_weight(*l, w) + tree_weight(*r, w),
    }
}

/// The weighted path length of `t`: each leaf's weight times its depth,
/// summed as the weights of the subtrees below each inner node.
pub open spec fn path_cost(t: HuffmanNode, w: Seq<nat>) -> nat
    decreases t,
{
    match t {
        HuffmanNode::Leaf(_) => 0,
        HuffmanNode::Internal(l, r) => path_cost(*l, w) + path_cost(*r, w) + tree_weight(*l, w)
            + tree_weight(*r, w),
    }
}

/// The depth of the leaf of byte `s` in `t`.
pub open spec fn leaf_depth(t: HuffmanNode, s: u8) -> nat
    decreases t,
{
    match t {
        HuffmanNode::Leaf(_) => 0,
        HuffmanNode::Internal(l, r) => if has_leaf(*l, s) {
            1 + leaf_depth(*l, s)
        } else {
            1 + leaf_depth(*r, s)
        },
    }
}

/// The weights of the leaves of `t`.
pub open spec fn leaf_weights(t: HuffmanNode, w: Seq<nat>) -> Multiset<nat>
    decreases t,
{
    match t {
        HuffmanNode::Leaf(s) => Multiset::singleton(w[s as int]),
        HuffmanNode::Internal(l, r) => leaf_weights(*l, w).add(leaf_weights(*r, w)),
    }
}

/// The least value of a multiset.
pub open spec fn min_of(m: Multiset<nat>) -> nat {
    choose|x: nat| m.count(x) > 0 && forall|y: nat| m.count(y) > 0 ==> x <= y
}

pub proof fn lemma_min_of(m: Multiset<nat>)
    requires
        m.len() > 0,
    ensures
        m.count(min_of(m)) > 0,
        forall|y: nat| m.count(y) > 0 ==> min_of(m) <= y,
    decreases m.len(),
{
    let x = m.choose();
    let r = m.remove(x);
    assert(r.len() == m.len() - 1);
    if r.len() == 0 {
        assert(forall|y: nat| m.count(y) > 0 ==> y == x) by {
            assert forall|y: nat| m.count(y) > 0 implies y == x by {
                if y != x {
                    assert(r.count(y) == m.count(y));
                }
            }
        }
        assert(m.count(x) > 0 && forall|y: nat| m.count(y) > 0 ==> x <= y);
    } else {
        lemma_min_of(r);
        let z = min_of(r);
        let best = if x <= z { x } else { z };
        assert(m.count(best) > 0);
        assert forall|y: nat| m.count(y) > 0 implies best <= y by {
            if y != x {
                assert(r.count(y) == m.count(y));
            }
        }
        assert(m.count(best) > 0 && forall|y: nat| m.count(y) > 0 ==> best <= y);
    }
}

pub proof fn lemma_join_len(m: Multiset<nat>, a: nat, b: nat)
    requires
        m.count(a) > 0,
        m.remove(a).count(b) > 0,
    ensures
        m.remove(a).remove(b).insert(a + b).len() == m.len() - 1,
{
    assert(m.remove(a).len() == m.len() - 1);
    assert(m.remove(a).remove(b).len() == m.len() - 2);
}

/// What joining the two lightest weights until one is left adds up to: each
/// join costs the sum of the two weights it joins.
pub open spec fn greedy_cost(m: Multiset<nat>) -> nat
    decreases m.len(),
{
    if m.len() <= 1 {
        0
    } else {
        let a = min_of(m);
        let m1 = m.remove(a);
        let b = min_of(m1);
        if m.count(a) > 0 && m1.count(b) > 0 {
            proof {
                lemma_join_len(m, a, b);
            }
            a + b + greedy_cost(m1.remove(b).insert(a + b))
        } else {
            0
        }
    }
}

pub proof fn lemma_leaf_weights_len(t: HuffmanNode, w: Seq<nat>)
    ensures
        leaf_weights(t, w).len() == leaf_count(t),
    decreases t,
{
    if let HuffmanNode::Internal(l, r) = t {
        lemma_leaf_weights_len(*l, w);
        lemma_leaf_weights_len(*r, w);
    }
}

/// The weight of each leaf is among the leaf weights, and each leaf weight is
/// that of a leaf.
pub proof fn lemma_leaf_weights_members(t: HuffmanNode, w: Seq<nat>)
    ensures
        forall|s: u8| #[trigger] has_leaf(t, s) ==> leaf_weights(t, w).count(w[s as int]) > 0,
        forall|v: nat|
            #[trigger] leaf_weights(t, w).count(v) > 0 ==> exists|s: u8| has_leaf(t, s) && w[s as int] == v,
    decreases t,
{
    match t {
        HuffmanNode::Leaf(y) => {
            assert forall|s: u8| #[trigger] has_leaf(t, s) implies leaf_weights(t, w).count(w[s as int])
                > 0 by {
                assert(s == y);
            }
            assert forall|v: nat| #[trigger] leaf_weights(t, w).count(v) > 0 implies exists|s: u8|
                has_leaf(t, s) && w[s as int] == v by {
                assert(v == w[y as int]);
                assert(has_leaf(t, y));
            }
        },
        HuffmanNode::Internal(l, r) => {
            lemma_leaf_weights_members(*l, w);
            lemma_leaf_weights_members(*r, w);
            assert forall|s: u8| #[trigger] has_leaf(t, s) implies leaf_weights(t, w).count(w[s as int])
                > 0 by {
                if has_leaf(*l, s) {
                    assert(leaf_weights(*l, w).count(w[s as int]) > 0);
                } else {
                    assert(has_leaf(*r, s));
                    assert(leaf_weights(*r, w).count(w[s as int]) > 0);
                }
            }
            assert forall|v: nat| #[trigger] leaf_weights(t, w).count(v) > 0 implies exists|s: u8|
                has_leaf(t, s) && w[s as int] == v by {
                if leaf_weights(*l, w).count(v) > 0 {
                    let s = choose|s: u8| has_leaf(*l, s) && w[s as int] == v;
                    assert(has_leaf(t, s));
                } else {
                    assert(leaf_weights(*r, w).count(v) > 0);
                    let s = choose|s: u8| has_leaf(*r, s) && w[s as int] == v;
                    assert(has_leaf(t, s));
                }
            }
        },
    }
}

/// Without the weight of leaf `x`, the leaf weights are those of the other
/// leaves.
#[verifier::spinoff_prover]
pub proof fn lemma_leaf_weights_without(t: HuffmanNode, w: Seq<nat>, x: u8)
    requires
        distinct_leaves(t),
        has_leaf(t, x),
    ensures
        forall|s: u8|
            #[trigger] has_leaf(t, s) && s != x ==> leaf_weights(t, w).remove(w[x as int]).count(
                w[s as int],
            ) > 0,
        forall|v: nat|
            #[trigger] leaf_weights(t, w).remove(w[x as int]).count(v) > 0 ==> exists|s: u8|
                has_leaf(t, s) && s != x && w[s as int] == v,
    decreases t,
{
    lemma_leaf_weights_members(t, w);
    let wx = w[x as int];
    match t {
        HuffmanNode::Leaf(y) => {
            assert(y == x);
            assert forall|s: u8| #[trigger] has_leaf(t, s) && s != x implies leaf_weights(t, w).remove(
                wx,
            ).count(w[s as int]) > 0 by {
                assert(s == y);
            }
            assert(leaf_weights(t, w).remove(wx) =~= Multiset::empty());
        },
        HuffmanNode::Internal(l, r) => {
            lemma_leaf_weights_members(*l, w);
            lemma_leaf_weights_members(*r, w);
            if has_leaf(*l, x) {
                lemma_leaf_weights_without(*l, w, x);
                assert(!has_leaf(*r, x));
                assert(leaf_weights(t, w).remove(wx) =~= leaf_weights(*l, w).remove(wx).add(
                    leaf_weights(*r, w),
                ));
                assert forall|s: u8| #[trigger] has_leaf(t, s) && s != x implies leaf_weights(t, w).remove(
                    wx,
                ).count(w[s as int]) > 0 by {
                    if has_leaf(*l, s) {
                        assert(leaf_weights(*l, w).remove(wx).count(w[s as int]) > 0);
                    } else {
                        assert(has_leaf(*r, s));
                        assert(leaf_weights(*r, w).count(w[s as int]) > 0);
                    }
                }
                assert forall|v: nat| #[trigger] leaf_weights(t, w).remove(wx).count(v) > 0 implies exists|s: u8|
                    has_leaf(t, s) && s != x && w[s as int] == v by {
                    if leaf_weights(*l, w).remove(wx).count(v) > 0 {
                        let s = choose|s: u8| has_leaf(*l, s) && s != x && w[s as int] == v;
                        assert(has_leaf(t, s));
                    } else {
                        assert(leaf_weights(*r, w).count(v) > 0);
                        let s = choose|s: u8| has_leaf(*r, s) && w[s as int] == v;
                        assert(has_leaf(t, s));
                    }
                }
            } else {
                assert(has_leaf(*r, x));
                lemma_leaf_weights_without(*r, w, x);
                assert(leaf_weights(t, w).remove(wx) =~= leaf_weights(*l, w).add(
                    leaf_weights(*r, w).remove(wx),
                ));
                assert forall|s: u8| #[trigger] has_leaf(t, s) && s != x implies leaf_weights(t, w).remove(
                    wx,
                ).count(w[s as int]) > 0 by {
                    if has_leaf(*l, s) {
                        assert(leaf_weights(*l, w).count(w[s as int]) > 0);
                    } else {
                        assert(has_leaf(*r, s));
                        assert(leaf_weights(*r, w).remove(wx).count(w[s as int]) > 0);
                    }
                }
                assert forall|v: nat| #[trigger] leaf_weights(t, w).remove(wx).count(v) > 0 implies exists|s: u8|
                    has_leaf(t, s) && s != x && w[s as int] == v by {
                    if leaf_weights(*l, w).count(v) > 0 {
                        let s = choose|s: u8| has_leaf(*l, s) && w[s as int] == v;
                        assert(has_leaf(t, s));
                    } else {
                        assert(leaf_weights(*r, w).remove(wx).count(v) > 0);
                        let s = choose|s: u8| has_leaf(*r, s) && s != x && w[s as int] == v;
                        assert(has_leaf(t, s));
                    }
                }
            }
        },
    }
}

/// Changing the weight of a byte with no leaf changes nothing.
pub proof fn lemma_update_absent(t: HuffmanNode, w: Seq<nat>, i: u8, v: nat)
    requires
        w.len() == 256,
        !has_leaf(t, i),
    ensures
        tree_weight(t, w.update(i as int, v)) == tree_weight(t, w),
        path_cost(t, w.update(i as int, v)) == path_cost(t, w),
        leaf_weights(t, w.update(i as int, v)) == leaf_weights(t, w),
    decreases t,
{
    if let HuffmanNode::Internal(l, r) = t {
        lemma_update_absent(*l, w, i, v);
        lemma_update_absent(*r, w, i, v);
    }
}

/// Changing the weight of a leaf from `w[i]` to `v` changes the weight by
/// the difference and the path length by the difference times its depth.
#[verifier::spinoff_prover]
pub proof fn lemma_update_present(t: HuffmanNode, w: Seq<nat>, i: u8, v: nat)
    requires
        w.len() == 256,
        distinct_leaves(t),
        has_leaf(t, i),
    ensures
        tree_weight(t, w.update(i as int, v)) + w[i as int] == tree_weight(t, w) + v,
        path_cost(t, w.update(i as int, v)) + w[i as int] * leaf_depth(t, i) == path_cost(t, w) + v
            * leaf_depth(t, i),
        leaf_weights(t, w.update(i as int, v)) == leaf_weights(t, w).remove(w[i as int]).insert(v),
    decreases t,
{
    let w2 = w.update(i as int, v);
    let wi = w[i as int];
    lemma_leaf_weights_members(t, w);
    match t {
        HuffmanNode::Leaf(_) => {
            assert(leaf_depth(t, i) == 0);
            assert(wi * 0 == 0 && v * 0 == 0) by (nonlinear_arith);
            assert(leaf_weights(t, w2) =~= leaf_weights(t, w).remove(wi).insert(v));
        },
        HuffmanNode::Internal(l, r) => {
            lemma_leaf_weights_members(*l, w);
            lemma_leaf_weights_members(*r, w);
            if has_leaf(*l, i) {
                assert(!has_leaf(*r, i));
                lemma_update_present(*l, w, i, v);
                lemma_update_absent(*r, w, i, v);
                let d = leaf_depth(*l, i);
                assert(leaf_depth(t, i) == d + 1);
                assert(wi * (d + 1) == wi * d + wi && v * (d + 1) == v * d + v) by (nonlinear_arith);
                assert(leaf_weights(t, w2) =~= leaf_weights(t, w).remove(wi).insert(v));
            } else {
                assert(has_leaf(*r, i));
                lemma_update_present(*r, w, i, v);
                lemma_update_absent(*l, w, i, v);
                let d = leaf_depth(*r, i);
                assert(leaf_depth(t, i) == d + 1);
                assert(wi * (d + 1) == wi * d + wi && v * (d + 1) == v * d + v) by (nonlinear_arith);
                assert(leaf_weights(t, w2) =~= leaf_weights(t, w).remove(wi).insert(v));
            }
        },
    }
}

/// The weights with those of bytes `i` and `j` exchanged.
pub open spec fn swap_weights(w: Seq<nat>, i: u8, j: u8) -> Seq<nat> {
    w.update(i as int, w[j as int]).update(j as int, w[i as int])
}

/// Exchanging the weights of two leaves keeps the leaf weights, and moves
/// each weight to the other's depth.
#[verifier::spinoff_prover]
pub proof fn lemma_swap(t: HuffmanNode, w: Seq<nat>, i: u8, j: u8)
    requires
        w.len() == 256,
        distinct_leaves(t),
        has_leaf(t, i),
        has_leaf(t, j),
        i != j,
    ensures
        leaf_weights(t, swap_weights(w, i, j)) == leaf_weights(t, w),
        path_cost(t, swap_weights(w, i, j)) + w[i as int] * leaf_depth(t, i) + w[j as int] * leaf_depth(
            t,
            j,
        ) == path_cost(t, w) + w[j as int] * leaf_depth(t, i) + w[i as int] * leaf_depth(t, j),
{
    let wi = w[i as int];
    let wj = w[j as int];
    let w1 = w.update(i as int, wj);
    lemma_update_present(t, w, i, wj);
    assert(w1[j as int] == wj);
    lemma_update_present(t, w1, j, wi);
    lemma_leaf_weights_members(t, w);
    assert(leaf_weights(t, w).count(wi) > 0);
    assert(leaf_weights(t, w).remove(wi).insert(wj).remove(wj).insert(wi) =~= leaf_weights(t, w));
}

/// Moving a lighter weight to a deeper leaf, and the heavier one up, does not
/// make the path length longer.
pub proof fn lemma_swap_down(t: HuffmanNode, w: Seq<nat>, i: u8, j: u8)
    requires
        w.len() == 256,
        distinct_leaves(t),
        has_leaf(t, i),
        has_leaf(t, j),
        i != j,
        w[i as int] <= w[j as int],
        leaf_depth(t, i) <= leaf_depth(t, j),
    ensures
        leaf_weights(t, swap_weights(w, i, j)) == leaf_weights(t, w),
        path_cost(t, swap_weights(w, i, j)) <= path_cost(t, w),
        swap_weights(w, i, j)[i as int] == w[j as int],
        swap_weights(w, i, j)[j as int] == w[i as int],
        forall|k: u8| k != i && k != j ==> #[trigger] swap_weights(w, i, j)[k as int] == w[k as int],
        swap_weights(w, i, j).len() == 256,
{
    lemma_swap(t, w, i, j);
    let wi = w[i as int];
    let wj = w[j as int];
    let di = leaf_depth(t, i);
    let dj = leaf_depth(t, j);
    assert(wj * di + wi * dj <= wi * di + wj * dj) by (nonlinear_arith)
        requires
            wi <= wj,
            di <= dj,
    {
        assert((wj - wi) * (dj - di) >= 0);
    }
}

/// The leaves at the greatest depth, found by going down the deeper side: a
/// pair of sibling leaves.
pub open spec fn deep_pair(t: HuffmanNode) -> (u8, u8)
    decreases t,
{
    match t {
        HuffmanNode::Leaf(s) => (s, s),
        HuffmanNode::Internal(l, r) => if (*l is Leaf) && (*r is Leaf) {
            ((*l)->Leaf_0, (*r)->Leaf_0)
        } else if tree_depth(*l) >= tree_depth(*r) {
            deep_pair(*l)
        } else {
            deep_pair(*r)
        },
    }
}

/// `t` has the leaves `x` and `y` as the two children of a node.
pub open spec fn has_pair(t: HuffmanNode, x: u8, y: u8) -> bool
    decreases t,
{
    match t {
        HuffmanNode::Leaf(_) => false,
        HuffmanNode::Internal(l, r) => (*l == HuffmanNode::Leaf(x) && *r == HuffmanNode::Leaf(y))
            || has_pair(*l, x, y) || has_pair(*r, x, y),
    }
}

pub proof fn lemma_leaf_depth_bound(t: HuffmanNode, s: u8)
    requires
        has_leaf(t, s),
    ensures
        leaf_depth(t, s) <= tree_depth(t),
    decreases t,
{
    if let HuffmanNode::Internal(l, r) = t {
        if has_leaf(*l, s) {
            lemma_leaf_depth_bound(*l, s);
        } else {
            lemma_leaf_depth_bound(*r, s);
        }
    }
}

pub proof fn lemma_has_pair_leaves(t: HuffmanNode, x: u8, y: u8)
    requires
        has_pair(t, x, y),
    ensures
        has_leaf(t, x),
        has_leaf(t, y),
    decreases t,
{
    if let HuffmanNode::Internal(l, r) = t {
        if *l == HuffmanNode::Leaf(x) && *r == HuffmanNode::Leaf(y) {
            assert(has_leaf(*l, x) && has_leaf(*r, y));
        } else if has_pair(*l, x, y) {
            lemma_has_pair_leaves(*l, x, y);
        } else {
            lemma_has_pair_leaves(*r, x, y);
        }
    }
}

/// The deep pair of a tree with more than one leaf: two different sibling
/// leaves, both at the greatest depth.
#[verifier::spinoff_prover]
pub proof fn lemma_deep_pair(t: HuffmanNode)
    requires
        t is Internal,
        distinct_leaves(t),
    ensures
        has_pair(t, deep_pair(t).0, deep_pair(t).1),
        deep_pair(t).0 != deep_pair(t).1,
        has_leaf(t, deep_pair(t).0),
        has_leaf(t, deep_pair(t).1),
        leaf_depth(t, deep_pair(t).0) == tree_depth(t),
        leaf_depth(t, deep_pair(t).1) == tree_depth(t),
    decreases t,
{
    if let HuffmanNode::Internal(l, r) = t {
        if (*l is Leaf) && (*r is Leaf) {
            let x = (*l)->Leaf_0;
            let y = (*r)->Leaf_0;
            assert(*l == HuffmanNode::Leaf(x) && *r == HuffmanNode::Leaf(y));
            assert(has_leaf(*l, x) && has_leaf(*r, y));
            assert(!(has_leaf(*l, x) && has_leaf(*r, x)));
            assert(has_leaf(t, x) && has_leaf(t, y));
            assert(leaf_depth(*l, x) == 0 && leaf_depth(*r, y) == 0);
        } else if tree_depth(*l) >= tree_depth(*r) {
            assert(*l is Internal);
            lemma_deep_pair(*l);
            lemma_has_pair_leaves(*l, deep_pair(t).0, deep_pair(t).1);
        } else {
            assert(*r is Internal);
            lemma_deep_pair(*r);
            let (x, y) = deep_pair(t);
            assert(!(has_leaf(*l, x) && has_leaf(*r, x)));
            assert(!(has_leaf(*l, y) && has_leaf(*r, y)));
        }
    }
}

/// `t` with the node of sibling leaves `x` and `y` replaced by a leaf `x`.
pub open spec fn merge_pair(t: HuffmanNode, x: u8, y: u8) -> HuffmanNode
    decreases t,
{
    match t {
        HuffmanNode::Leaf(_) => t,
        HuffmanNode::Internal(l, r) => if *l == HuffmanNode::Leaf(x) && *r == HuffmanNode::Leaf(y) {
            HuffmanNode::Leaf(x)
        } else {
            HuffmanNode::Internal(Box::new(merge_pair(*l, x, y)), Box::new(merge_pair(*r, x, y)))
        },
    }
}

#[verifier::spinoff_prover]
pub proof fn lemma_merge_absent(t: HuffmanNode, x: u8, y: u8)
    requires
        !has_leaf(t, x),
    ensures
        merge_pair(t, x, y) == t,
    decreases t,
{
    if let HuffmanNode::Internal(l, r) = t {
        assert(!has_leaf(*l, x) && !has_leaf(*r, x));
        assert(*l != HuffmanNode::Leaf(x));
        lemma_merge_absent(*l, x, y);
        lemma_merge_absent(*r, x, y);
        assert(merge_pair(t, x, y) == HuffmanNode::Internal(
            Box::new(merge_pair(*l, x, y)),
            Box::new(merge_pair(*r, x, y)),
        ));
    }
}

/// Replacing the sibling leaves `x` and `y` by one leaf `x` of their joint
/// weight takes that weight off the path length, and joins their two weights
/// in the leaf weights.
#[verifier::spinoff_prover]
pub proof fn lemma_merge_pair(t: HuffmanNode, w: Seq<nat>, x: u8, y: u8)
    requires
        w.len() == 256,
        distinct_leaves(t),
        has_pair(t, x, y),
        x != y,
    ensures
        distinct_leaves(merge_pair(t, x, y)),
        forall|s: u8| #[trigger] has_leaf(merge_pair(t, x, y), s) ==> has_leaf(t, s),
        leaf_count(merge_pair(t, x, y)) + 1 == leaf_count(t),
        tree_weight(merge_pair(t, x, y), w.update(x as int, w[x as int] + w[y as int])) == tree_weight(t, w),
        path_cost(merge_pair(t, x, y), w.update(x as int, w[x as int] + w[y as int])) + w[x as int]
            + w[y as int] == path_cost(t, w),
        leaf_weights(merge_pair(t, x, y), w.update(x as int, w[x as int] + w[y as int])) == leaf_weights(
            t,
            w,
        ).remove(w[x as int]).remove(w[y as int]).insert(w[x as int] + w[y as int]),
    decreases t,
{
    let wx = w[x as int];
    let wy = w[y as int];
    let u = w.update(x as int, wx + wy);
    let t2 = merge_pair(t, x, y);
    if let HuffmanNode::Internal(l, r) = t {
        if *l == HuffmanNode::Leaf(x) && *r == HuffmanNode::Leaf(y) {
            assert(t2 == HuffmanNode::Leaf(x));
            assert(has_leaf(*l, x) && has_leaf(*r, y));
            assert(!(has_leaf(*l, y) && has_leaf(*r, y)));
            assert(x != y);
            assert(tree_weight(*l, w) == wx && tree_weight(*r, w) == wy);
            assert(path_cost(*l, w) == 0 && path_cost(*r, w) == 0);
            assert(leaf_weights(*l, w) == Multiset::singleton(wx));
            assert(leaf_weights(*r, w) == Multiset::singleton(wy));
            assert(leaf_weights(t2, u) == Multiset::singleton(wx + wy));
            assert(leaf_count(*l) == 1 && leaf_count(*r) == 1);
            assert(leaf_weights(t2, u) =~= leaf_weights(t, w).remove(wx).remove(wy).insert(wx + wy));
            assert forall|s: u8| #[trigger] has_leaf(t2, s) implies has_leaf(t, s) by {
                assert(s == x);
            }
        } else if has_pair(*l, x, y) {
            lemma_has_pair_leaves(*l, x, y);
            assert(!has_leaf(*r, x) && !has_leaf(*r, y));
            lemma_merge_pair(*l, w, x, y);
            lemma_merge_absent(*r, x, y);
            lemma_update_absent(*r, w, x, wx + wy);
            lemma_leaf_weights_members(*l, w);
            lemma_leaf_weights_without(*l, w, x);
            assert(leaf_weights(*l, w).count(wx) > 0);
            assert(leaf_weights(*l, w).remove(wx).count(wy) > 0);
            assert(leaf_weights(t2, u) =~= leaf_weights(t, w).remove(wx).remove(wy).insert(wx + wy));
            let l2 = merge_pair(*l, x, y);
            assert forall|s: u8| !(#[trigger] has_leaf(l2, s) && #[trigger] has_leaf(*r, s)) by {
                if has_leaf(l2, s) {
                    assert(has_leaf(*l, s));
                }
            }
            assert forall|s: u8| #[trigger] has_leaf(t2, s) implies has_leaf(t, s) by {
                if has_leaf(l2, s) {
                    assert(has_leaf(*l, s));
                }
            }
        } else {
            assert(has_pair(*r, x, y));
            lemma_has_pair_leaves(*r, x, y);
            assert(!has_leaf(*l, x) && !has_leaf(*l, y));
            lemma_merge_pair(*r, w, x, y);
            lemma_merge_absent(*l, x, y);
            lemma_update_absent(*l, w, x, wx + wy);
            lemma_leaf_weights_members(*r, w);
            lemma_leaf_weights_without(*r, w, x);
            assert(leaf_weights(*r, w).count(wx) > 0);
            assert(leaf_weights(*r, w).remove(wx).count(wy) > 0);
            assert(leaf_weights(t2, u) =~= leaf_weights(t, w).remove(wx).remove(wy).insert(wx + wy));
            let r2 = merge_pair(*r, x, y);
            assert forall|s: u8| !(#[trigger] has_leaf(*l, s) && #[trigger] has_leaf(r2, s)) by {
                if has_leaf(r2, s) {
                    assert(has_leaf(*r, s));
                }
            }
            assert forall|s: u8| #[trigger] has_leaf(t2, s) implies has_leaf(t, s) by {
                if has_leaf(r2, s) {
                    assert(has_leaf(*r, s));
                }
            }
        }
    }
}

pub proof fn lemma_leaf_count_pos(t: HuffmanNode)
    ensures
        leaf_count(t) >= 1,
        t is Internal ==> leaf_count(t) >= 2,
    decreases t,
{
    if let HuffmanNode::Internal(l, r) = t {
        lemma_leaf_count_pos(*l);
        lemma_leaf_count_pos(*r);
    }
}

/// No code tree is shorter than joining the two lightest weights over and
/// over: the weighted path length of a tree whose bytes each have one leaf is
/// at least [`greedy_cost`] of its leaf weights.
#[verifier::spinoff_prover]
#[verifier::rlimit(30)]
pub proof fn lemma_greedy_cost_le(t: HuffmanNode, w: Seq<nat>)
    requires
        w.len() == 256,
        distinct_leaves(t),
    ensures
        greedy_cost(leaf_weights(t, w)) <= path_cost(t, w),
    decreases leaf_count(t),
{
    let m = leaf_weights(t, w);
    lemma_leaf_weights_len(t, w);
    lemma_leaf_count_pos(t);
    if t is Leaf {
        return;
    }
    lemma_leaf_weights_members(t, w);
    lemma_min_of(m);
    let a = min_of(m);
    let ia = choose|s: u8| has_leaf(t, s) && w[s as int] == a;
    let m1 = m.remove(a);
    assert(m1.len() == m.len() - 1);
    lemma_min_of(m1);
    let b = min_of(m1);
    lemma_leaf_weights_without(t, w, ia);
    let jb = choose|s: u8| has_leaf(t, s) && s != ia && w[s as int] == b;
    lemma_deep_pair(t);
    let (x, y) = deep_pair(t);
    // the lightest weight goes to `x`
    lemma_leaf_depth_bound(t, ia);
    let u1 = if ia == x {
        w
    } else {
        lemma_swap_down(t, w, ia, x);
        swap_weights(w, ia, x)
    };
    assert(leaf_weights(t, u1) == m && path_cost(t, u1) <= path_cost(t, w));
    assert(u1[x as int] == a);
    let jb1 = if jb == x { ia } else { jb };
    assert(u1[jb1 as int] == b && jb1 != x && has_leaf(t, jb1));
    // the next lightest goes to `y`
    lemma_leaf_weights_without(t, u1, x);
    lemma_leaf_depth_bound(t, jb1);
    assert(m1.count(u1[y as int]) > 0);
    let u2 = if jb1 == y {
        u1
    } else {
        lemma_swap_down(t, u1, jb1, y);
        swap_weights(u1, jb1, y)
    };
    assert(leaf_weights(t, u2) == m && path_cost(t, u2) <= path_cost(t, w));
    assert(u2[x as int] == a && u2[y as int] == b);
    assert(u2.len() == 256);
    // join them
    lemma_merge_pair(t, u2, x, y);
    let t2 = merge_pair(t, x, y);
    let u3 = u2.update(x as int, a + b);
    lemma_greedy_cost_le(t2, u3);
    assert(leaf_weights(t2, u3) == m1.remove(b).insert(a + b));
}

/// The frequencies as weights.
pub open spec fn nat_weights(freq: Seq<usize>) -> Seq<nat> {
    Seq::new(256, |i: int| freq[i] as nat)
}

pub proof fn lemma_weight_is_tree_weight(t: HuffmanNode, freq: Seq<usize>)
    requires
        freq.len() == 256,
    ensures
        weight(t, freq) == tree_weight(t, nat_weights(freq)),
    decreases t,
{
    if let HuffmanNode::Internal(l, r) = t {
        lemma_weight_is_tree_weight(*l, freq);
        lemma_weight_is_tree_weight(*r, freq);
    }
}

/// The weights of the waiting trees.
pub open spec fn item_weights(h: Seq<HeapItem>) -> Multiset<nat> {
    h.map_values(|it: HeapItem| it.weight as nat).to_multiset()
}

/// The path lengths of the waiting trees, added up.
pub open spec fn forest_cost(h: Seq<HeapItem>, w: Seq<nat>) -> nat
    decreases h.len(),
{
    if h.len() == 0 {
        0
    } else {
        forest_cost(h.drop_last(), w) + path_cost(h.last().node, w)
    }
}

proof fn lemma_forest_cost_remove(h: Seq<HeapItem>, w: Seq<nat>, i: int)
    requires
        0 <= i < h.len(),
    ensures
        forest_cost(h.remove(i), w) + path_cost(h[i].node, w) == forest_cost(h, w),
    decreases h.len(),
{
    if i == h.len() - 1 {
        assert(h.remove(i) =~= h.drop_last());
    } else {
        assert(h.remove(i).drop_last() =~= h.drop_last().remove(i));
        assert(h.remove(i).last() == h.last());
        lemma_forest_cost_remove(h.drop_last(), w, i);
    }
}

proof fn lemma_item_weights_remove(h: Seq<HeapItem>, i: int)
    requires
        0 <= i < h.len(),
    ensures
        item_weights(h.remove(i)) == item_weights(h).remove(h[i].weight as nat),
{
    let f = |it: HeapItem| it.weight as nat;
    let s = h.map_values(f);
    assert(h.remove(i).map_values(f) =~= s.remove(i));
    s.to_multiset_ensures();
}

proof fn lemma_item_weights_push(h: Seq<HeapItem>, c: HeapItem)
    ensures
        item_weights(h.push(c)) == item_weights(h).insert(c.weight as nat),
{
    let f = |it: HeapItem| it.weight as nat;
    let s = h.map_values(f);
    assert(h.push(c).map_values(f) =~= s.push(c.weight as nat));
    s.to_multiset_ensures();
}

/// The lightest waiting tree weighs the least of the weights.
#[verifier::spinoff_prover]
proof fn lemma_first_min_weight(h: Seq<HeapItem>)
    requires
        h.len() >= 1,
    ensures
        0 <= first_min(h) < h.len(),
        h[first_min(h)].weight as nat == min_of(item_weights(h)),
        item_weights(h).len() == h.len(),
{
    lemma_first_min_upto(h, h.len());
    let f = |it: HeapItem| it.weight as nat;
    let s = h.map_values(f);
    s.to_multiset_ensures();
    let m = item_weights(h);
    let ia = first_min(h);
    assert(s[ia] == h[ia].weight as nat);
    assert(s.contains(s[ia]));
    lemma_min_of(m);
    assert(m == s.to_multiset());
    assert(m.count(s[ia]) > 0);
    let v = min_of(m);
    assert(v <= s[ia]);
    assert(m.count(v) > 0);
    assert(s.contains(v));
    let k = choose|k: int| 0 <= k < s.len() && s[k] == v;
    assert(s[k] == h[k].weight as nat);
    assert(h[ia].weight <= h[k].weight);
    assert(s[ia] <= v);
}

/// One joining step takes the two least weights out and puts their sum in,
/// and adds that sum to the path lengths.
#[verifier::spinoff_prover]
proof fn lemma_join_two_step(h: Seq<HeapItem>, freq: Seq<usize>)
    requires
        freq.len() == 256,
        heap_inv(h, freq),
        sum_freq(freq) <= usize::MAX,
        h.len() >= 2,
    ensures
        heap_inv(join_two(h), freq),
        join_two(h).len() == h.len() - 1,
        ({
            let m = item_weights(h);
            let a = min_of(m);
            let b = min_of(m.remove(a));
            &&& m.count(a) > 0
            &&& m.remove(a).count(b) > 0
            &&& item_weights(join_two(h)) == m.remove(a).remove(b).insert(a + b)
            &&& forest_cost(join_two(h), nat_weights(freq)) == forest_cost(h, nat_weights(freq)) + a + b
        }),
{
    let w = nat_weights(freq);
    let m = item_weights(h);
    lemma_first_min_weight(h);
    lemma_first_min_upto(h, h.len());
    lemma_min_of(m);
    let ia = first_min(h);
    let a = h[ia];
    let h1 = h.remove(ia);
    h.remove_ensures(ia);
    lemma_item_weights_remove(h, ia);
    lemma_first_min_weight(h1);
    lemma_first_min_upto(h1, h1.len());
    lemma_min_of(item_weights(h1));
    let ib = first_min(h1);
    let b = h1[ib];
    let h2 = h1.remove(ib);
    lemma_join_lightest(h, ia, ib, freq);
    lemma_item_weights_remove(h1, ib);
    let c = HeapItem {
        weight: (a.weight + b.weight) as usize,
        node: HuffmanNode::Internal(Box::new(a.node), Box::new(b.node)),
    };
    assert(join_two(h) == h2.push(c));
    lemma_item_weights_push(h2, c);
    lemma_forest_cost_remove(h, w, ia);
    lemma_forest_cost_remove(h1, w, ib);
    assert(h2.push(c).drop_last() =~= h2);
    assert(h[ia].weight == weight(a.node, freq));
    assert(h1[ib] == h[if ib < ia { ib } else { ib + 1 }]);
    lemma_weight_is_tree_weight(a.node, freq);
    lemma_weight_is_tree_weight(b.node, freq);
    assert(b.weight == weight(b.node, freq));
}

proof fn lemma_single_cost(h: Seq<HeapItem>, w: Seq<nat>)
    requires
        h.len() == 1,
    ensures
        path_cost(join_all(h)[0].node, w) == forest_cost(h, w) + greedy_cost(item_weights(h)),
{
    lemma_first_min_weight(h);
    assert(h.drop_last() =~= Seq::<HeapItem>::empty());
    assert(join_all(h) == h);
    assert(forest_cost(h.drop_last(), w) == 0);
    assert(h.last() == h[0]);
    assert(forest_cost(h, w) == path_cost(h[0].node, w));
    assert(greedy_cost(item_weights(h)) == 0);
}

/// Joining the waiting trees, lightest two first, adds [`greedy_cost`] of
/// their weights to their path lengths.
#[verifier::spinoff_prover]
pub proof fn lemma_join_all_cost(h: Seq<HeapItem>, freq: Seq<usize>)
    requires
        freq.len() == 256,
        heap_inv(h, freq),
        sum_freq(freq) <= usize::MAX,
        h.len() >= 1,
    ensures
        path_cost(join_all(h)[0].node, nat_weights(freq)) == forest_cost(h, nat_weights(freq))
            + greedy_cost(item_weights(h)),
    decreases h.len(),
{
    if h.len() == 1 {
        lemma_single_cost(h, nat_weights(freq));
    } else {
        lemma_first_min_weight(h);
        let m = item_weights(h);
        let a = min_of(m);
        let b = min_of(m.remove(a));
        let h2 = join_two(h);
        lemma_join_two_step(h, freq);
        lemma_join_all_cost(h2, freq);
        assert(join_all(h) == join_all(h2));
        assert(greedy_cost(m) == a + b + greedy_cost(m.remove(a).remove(b).insert(a + b)));
    }
}

/// The weights of the leaves among the first `k` bytes, in byte order.
pub open spec fn leaf_weights_upto(t: HuffmanNode, w: Seq<nat>, k: nat) -> Multiset<nat>
    decreases k,
{
    if k == 0 {
        Multiset::empty()
    } else {
        let before = leaf_weights_upto(t, w, (k - 1) as nat);
        if has_leaf(t, (k - 1) as u8) {
            before.insert(w[k - 1])
        } else {
            before
        }
    }
}

proof fn lemma_upto_leaf(x: u8, w: Seq<nat>, k: nat)
    requires
        k <= 256,
    ensures
        leaf_weights_upto(HuffmanNode::Leaf(x), w, k) == if x < k {
            Multiset::singleton(w[x as int])
        } else {
            Multiset::empty()
        },
    decreases k,
{
    if k > 0 {
        lemma_upto_leaf(x, w, (k - 1) as nat);
        let km = (k - 1) as u8;
        assert(has_leaf(HuffmanNode::Leaf(x), km) == (x == km));
        assert(leaf_weights_upto(HuffmanNode::Leaf(x), w, k) =~= if x < k {
            Multiset::singleton(w[x as int])
        } else {
            Multiset::empty()
        });
    }
}

proof fn lemma_upto_split(l: HuffmanNode, r: HuffmanNode, w: Seq<nat>, k: nat)
    requires
        k <= 256,
        forall|s: u8| !(#[trigger] has_leaf(l, s) && #[trigger] has_leaf(r, s)),
    ensures
        leaf_weights_upto(HuffmanNode::Internal(Box::new(l), Box::new(r)), w, k) == leaf_weights_upto(
            l,
            w,
            k,
        ).add(leaf_weights_upto(r, w, k)),
    decreases k,
{
    let t = HuffmanNode::Internal(Box::new(l), Box::new(r));
    if k == 0 {
        assert(leaf_weights_upto(t, w, k) =~= leaf_weights_upto(l, w, k).add(leaf_weights_upto(r, w, k)));
    } else {
        lemma_upto_split(l, r, w, (k - 1) as nat);
        let km = (k - 1) as u8;
        assert(has_leaf(t, km) == (has_leaf(l, km) || has_leaf(r, km)));
        assert(!(has_leaf(l, km) && has_leaf(r, km)));
        assert(leaf_weights_upto(t, w, k) =~= leaf_weights_upto(l, w, k).add(leaf_weights_upto(r, w, k)));
    }
}

/// Where no byte has two leaves, the leaf weights are those of the bytes that
/// have a leaf, in byte order.
pub proof fn lemma_leaf_weights_upto(t: HuffmanNode, w: Seq<nat>)
    requires
        w.len() == 256,
        distinct_leaves(t),
    ensures
        leaf_weights(t, w) == leaf_weights_upto(t, w, 256),
    decreases t,
{
    match t {
        HuffmanNode::Leaf(x) => {
            lemma_upto_leaf(x, w, 256);
        },
        HuffmanNode::Internal(l, r) => {
            lemma_leaf_weights_upto(*l, w);
            lemma_leaf_weights_upto(*r, w);
            lemma_upto_split(*l, *r, w, 256);
            assert(t == HuffmanNode::Internal(Box::new(*l), Box::new(*r)));
        },
    }
}

#[verifier::spinoff_prover]
proof fn lemma_leaf_items_weights(t: HuffmanNode, freq: Seq<usize>, k: nat)
    requires
        freq.len() == 256,
        k <= 256,
        forall|s: u8| #[trigger] has_leaf(t, s) <==> freq[s as int] > 0,
    ensures
        item_weights(leaf_items(freq, k)) == leaf_weights_upto(t, nat_weights(freq), k),
        forest_cost(leaf_items(freq, k), nat_weights(freq)) == 0,
    decreases k,
{
    let w = nat_weights(freq);
    if k == 0 {
        let f = |it: HeapItem| it.weight as nat;
        assert(leaf_items(freq, 0).map_values(f) =~= Seq::<nat>::empty());
        Seq::<nat>::empty().to_multiset_ensures();
        assert(item_weights(leaf_items(freq, 0)) =~= Multiset::empty());
    } else {
        let km = (k - 1) as nat;
        lemma_leaf_items_weights(t, freq, km);
        let h = leaf_items(freq, km);
        assert(has_leaf(t, km as u8) == (freq[km as int] > 0));
        if freq[km as int] > 0 {
            let c = HeapItem { weight: freq[km as int], node: HuffmanNode::Leaf(km as u8) };
            assert(leaf_items(freq, k) == h.push(c));
            lemma_item_weights_push(h, c);
            assert(h.push(c).drop_last() =~= h);
        }
    }
}

/// The Huffman tree is optimal: where at least two bytes occur, no tree that
/// gives each occurring byte one leaf, and no other byte a leaf, has a smaller
/// weighted path length (see [`lemma_huffman_code_shortest`] for the code bits
/// this counts).
#[verifier::spinoff_prover]
pub proof fn lemma_huffman_optimal(freq: Seq<usize>, t: HuffmanNode)
    requires
        freq.len() == 256,
        sum_freq(freq) <= usize::MAX,
        exists|s1: u8, s2: u8| s1 != s2 && freq[s1 as int] > 0 && freq[s2 as int] > 0,
        distinct_leaves(t),
        forall|s: u8| #[trigger] has_leaf(t, s) <==> freq[s as int] > 0,
    ensures
        huffman_tree(freq) matches Some(h) && path_cost(h, nat_weights(freq)) <= path_cost(
            t,
            nat_weights(freq),
        ),
{
    let w = nat_weights(freq);
    let h0 = leaf_items(freq, 256);
    lemma_leaf_items(freq, 256);
    assert(freq.take(256) =~= freq);
    let (s1, s2) = choose|s1: u8, s2: u8| s1 != s2 && freq[s1 as int] > 0 && freq[s2 as int] > 0;
    let i = choose|i: int| 0 <= i < h0.len() && #[trigger] has_leaf(h0[i].node, s1);
    let j = choose|j: int| 0 <= j < h0.len() && #[trigger] has_leaf(h0[j].node, s2);
    assert(h0[i].weight == weight(h0[i].node, freq));
    assert(h0[j].weight == weight(h0[j].node, freq));
    assert(h0[i].node is Leaf && h0[j].node is Leaf);
    assert(i != j);
    assert(h0.len() >= 2);
    assert forall|a: int, b: int| 0 <= a < h0.len() && 0 <= b < h0.len() implies #[trigger] h0[a].weight
        >= child_max(#[trigger] h0[b].node, freq) by {
        assert(h0[b].weight == weight(h0[b].node, freq));
        assert(h0[b].node is Leaf);
    }
    assert(heap_inv(h0, freq));
    lemma_join_all_cost(h0, freq);
    lemma_leaf_items_weights(t, freq, 256);
    lemma_leaf_weights_upto(t, w);
    lemma_greedy_cost_le(t, w);
}

/// The code table gives each leaf its depth as the length of its code, and
/// leaves the entries of other bytes alone.
#[verifier::spinoff_prover]
pub proof fn lemma_assign_codes_len(t: HuffmanNode, code: u32, depth: u8, table: Seq<(u32, u8)>)
    requires
        distinct_leaves(t),
        depth + tree_depth(t) < 256,
        table.len() == 256,
    ensures
        assign_codes(t, code, depth, table).len() == 256,
        forall|s: u8| #[trigger] has_leaf(t, s) ==> assign_codes(t, code, depth, table)[s as int].1 == depth
            + leaf_depth(t, s),
        forall|s: u8| !has_leaf(t, s) ==> #[trigger] assign_codes(t, code, depth, table)[s as int] == table[s as int],
    decreases t,
{
    match t {
        HuffmanNode::Leaf(x) => {
            assert forall|s: u8| #[trigger] has_leaf(t, s) implies assign_codes(t, code, depth, table)[s as int].1
                == depth + leaf_depth(t, s) by {
                assert(s == x);
            }
        },
        HuffmanNode::Internal(l, r) => {
            let d1 = (depth + 1) as u8;
            let inner = assign_codes(*l, code, d1, table);
            lemma_assign_codes_len(*l, code, d1, table);
            lemma_assign_codes_len(*r, code | (1u32 << depth), d1, inner);
            assert forall|s: u8| #[trigger] has_leaf(t, s) implies assign_codes(t, code, depth, table)[s as int].1
                == depth + leaf_depth(t, s) by {
                if has_leaf(*l, s) {
                    assert(!has_leaf(*r, s));
                } else {
                    assert(has_leaf(*r, s));
                }
            }
        },
    }
}

proof fn lemma_zero_cost(t: HuffmanNode, w: Seq<nat>)
    requires
        forall|i: int| 0 <= i < w.len() ==> #[trigger] w[i] == 0,
        w.len() == 256,
    ensures
        tree_weight(t, w) == 0,
        path_cost(t, w) == 0,
    decreases t,
{
    if let HuffmanNode::Internal(l, r) = t {
        lemma_zero_cost(*l, w);
        lemma_zero_cost(*r, w);
    }
}


proof fn lemma_upto_len(t: HuffmanNode, w: Seq<nat>, k: nat)
    requires
        k <= 256,
    ensures
        leaf_weights_upto(t, w, k).len() <= k,
    decreases k,
{
    if k > 0 {
        lemma_upto_len(t, w, (k - 1) as nat);
    }
}

proof fn lemma_depth_below_count(t: HuffmanNode)
    ensures
        tree_depth(t) < leaf_count(t),
    decreases t,
{
    if let HuffmanNode::Internal(l, r) = t {
        lemma_depth_below_count(*l);
        lemma_depth_below_count(*r);
    }
}

/// A tree in which no byte has two leaves has at most 256 leaves, so it is
/// less than 256 levels deep.
pub proof fn lemma_distinct_tree_size(t: HuffmanNode)
    requires
        distinct_leaves(t),
    ensures
        leaf_count(t) <= 256,
        tree_depth(t) < 256,
{
    let w = Seq::new(256, |i: int| 0nat);
    lemma_leaf_weights_len(t, w);
    lemma_leaf_weights_upto(t, w);
    lemma_upto_len(t, w, 256);
    lemma_depth_below_count(t);
}

/// The codes of `data` in the code table of `t` take as many bits as the
/// weighted path length of `t` with the byte counts of `data` as weights.
#[verifier::spinoff_prover]
pub proof fn lemma_code_bits_len(t: HuffmanNode, data: Seq<u8>)
    requires
        distinct_leaves(t),
        data.len() < usize::MAX,
        forall|j: int| 0 <= j < data.len() ==> has_leaf(t, #[trigger] data[j]),
    ensures
        code_paths(code_table(t), data).len() == path_cost(t, nat_weights(freq_of(data))),
    decreases data.len(),
{
    let table = code_table(t);
    lemma_distinct_tree_size(t);
    lemma_assign_codes_len(t, 0, 0, Seq::new(256, |i: int| (0u32, 0u8)));
    if data.len() == 0 {
        assert(code_paths(table, data) =~= Seq::<bool>::empty());
        lemma_zero_cost(t, nat_weights(freq_of(data)));
    } else {
        let d = data.drop_last();
        let x = data.last();
        assert(d.push(x) =~= data);
        assert forall|j: int| 0 <= j < d.len() implies has_leaf(t, #[trigger] d[j]) by {
            assert(d[j] == data[j]);
        }
        lemma_code_bits_len(t, d);
        lemma_code_paths_push(table, d, x);
        assert(has_leaf(t, data[data.len() - 1]));
        let w = nat_weights(freq_of(d));
        lemma_freq_of(d);
        lemma_sum_freq_le(freq_of(d), x as int);
        let w2 = nat_weights(freq_of(data));
        assert(w2 =~= w.update(x as int, w[x as int] + 1));
        lemma_update_present(t, w, x, w[x as int] + 1);
        let dx = leaf_depth(t, x);
        assert((w[x as int] + 1) * dx == w[x as int] * dx + dx) by (nonlinear_arith);
        assert(code_path(table[x as int]).len() == dx);
    }
}

/// Coded with the Huffman tree of its byte counts, data takes no more code
/// bits than with the code table of any other tree that gives each byte of
/// the data one leaf and no other byte a leaf, where at least two different
/// bytes occur.
#[verifier::spinoff_prover]
pub proof fn lemma_huffman_code_shortest(data: Seq<u8>, t: HuffmanNode)
    requires
        data.len() < usize::MAX,
        exists|i: int, j: int| 0 <= i < data.len() && 0 <= j < data.len() && data[i] != data[j],
        distinct_leaves(t),
        forall|s: u8| #[trigger] has_leaf(t, s) <==> freq_of(data)[s as int] > 0,
    ensures
        huffman_tree(freq_of(data)) matches Some(h) && code_paths(code_table(h), data).len()
            <= code_paths(code_table(t), data).len(),
{
    let freq = freq_of(data);
    lemma_freq_of(data);
    let (i, j) = choose|i: int, j: int| 0 <= i < data.len() && 0 <= j < data.len() && data[i] != data[j];
    assert(freq[data[i] as int] > 0 && freq[data[j] as int] > 0);
    lemma_huffman_optimal(freq, t);
    let h = huffman_tree(freq)->Some_0;
    lemma_huffman_tree(freq);
    lemma_huffman_tree_distinct(freq);
    if data[i] != 0 {
        assert(freq[data[i] as int] > 0);
    } else {
        assert(freq[data[j] as int] > 0);
    }
    assert(distinct_leaves(h));
    assert forall|k: int| 0 <= k < data.len() implies has_leaf(t, #[trigger] data[k]) by {
        assert(freq[data[k] as int] > 0);
    }
    assert forall|k: int| 0 <= k < data.len() implies has_leaf(h, #[trigger] data[k]) by {
        assert(freq[data[k] as int] > 0);
    }
    lemma_code_bits_len(t, data);
    lemma_code_bits_len(h, data);
}

} // verus!
