//! The z-fast trie: a compacted binary trie over sorted, prefix-free bit
//! strings, plus a hash index from node handles to nodes and precomputed
//! jump pointers, so that queries run a fat binary search over prefix
//! lengths instead of descending the tree.
//!
//! Nodes live in an arena and refer to each other by index; every child,
//! jump and leftmost-leaf index points strictly below its owner, so walks
//! down the tree terminate by construction. The leaves are additionally
//! threaded into a doubly linked list in sorted order. Because a probe of
//! the hash index can collide, a query does not trust the search: it walks
//! from the exit node's nearest stored string along the leaf list to the
//! position that brackets the query point, so the answers are exact
//! whatever the probes did — a misleading probe costs a longer walk, never
//! a wrong answer.

use vstd::prelude::*;
use std::collections::HashMap;
use core::cmp::Ordering;
use crate::bitstr::{
    Str, bits_of, str_new, str_len, str_get, str_eq, str_clone, str_le, str_lt, str_push,
    get_substr,
    cmp, strs_of, sorted_strs, clone_strs, sort_strs, lex_lt, lex_le, is_prefix, lemma_lex_total,
    };
use crate::bitwise_operations::{get_fattest, fattest_witness, lemma_fattest_no_fatter};
use crate::traits::{
    opt_bits, is_pred_answer, is_succ_answer, is_pref_answer, is_range_answer,
    lemma_no_pref_witness, lemma_no_succ_no_pref,
};
use crate::hashes::RollingHash;
use vstd::arithmetic::power2::{pow2, lemma_pow2_pos, lemma_pow2_unfold};
use vstd::arithmetic::div_mod::{
    lemma_fundamental_div_mod, lemma_fundamental_div_mod_converse, };

verus! {

/// What a node is: an inner branching point, or a stored string.
pub enum NodeKind {
    Internal {
        /// child taken on a 0 bit
        left: usize,
        /// child taken on a 1 bit
        right: usize,
        /// the node reached by walking only left children up to the target
        /// depth of the doubling step
        jump_left: usize,
        /// the same on the right
        jump_right: usize,
        /// the leftmost stored string below this node, whose prefix is this
        /// node's extent
        to_leaf: usize,
    },
    Leaf {
        /// the previous stored string in sorted order
        prev: Option<usize>,
        /// the next stored string in sorted order
        next: Option<usize>,
        /// the stored string itself
        extent: Str,
    },
}

/// One trie node: the depth where its incoming edge begins, and its kind.
pub struct TrieNode {
    pub lind: usize,
    pub kind: NodeKind,
}

pub open spec fn is_leaf(n: TrieNode) -> bool {
    n.kind is Leaf
}

/// The depth at which a node's extent ends: for an internal node, one less
/// than its left child's start; for a leaf, the whole string.
pub open spec fn rind_of(nodes: Seq<TrieNode>, i: int) -> int {
    match nodes[i].kind {
        NodeKind::Internal { left, .. } => nodes[left as int].lind - 1,
        NodeKind::Leaf { extent, .. } => bits_of(extent).len() as int,
    }
}

/// The node a probe may return for index `i` is sound: children and jumps
/// sit strictly below their owner, depths grow downward, and every stored
/// string is a member of the model.
pub open spec fn node_wf(nodes: Seq<TrieNode>, model: Seq<Seq<bool>>, i: int) -> bool {
    match nodes[i].kind {
        NodeKind::Internal { left, right, jump_left, jump_right, to_leaf } => {
            &&& left < i && right < i && to_leaf < i
            &&& jump_left < i && jump_right < i
            &&& nodes[left as int].lind > nodes[i].lind
            &&& nodes[right as int].lind > nodes[i].lind
            &&& is_leaf(nodes[to_leaf as int])
            &&& leaf_bits(nodes, to_leaf as int).len() >= rind_of(nodes, i)
        },
        NodeKind::Leaf { prev, next, extent } => {
            &&& bits_of(extent).len() >= nodes[i].lind
            &&& bits_of(extent).len() < 0x40000000
            &&& model.contains(bits_of(extent))
            &&& (prev matches Some(p) ==> p < nodes.len() && is_leaf(nodes[p as int]))
            &&& (next matches Some(q) ==> q < nodes.len() && is_leaf(nodes[q as int]))
        },
    }
}

/// The bits stored at a leaf.
pub open spec fn leaf_bits(nodes: Seq<TrieNode>, i: int) -> Seq<bool> {
    match nodes[i].kind {
        NodeKind::Leaf { extent, .. } => bits_of(extent),
        NodeKind::Internal { .. } => Seq::empty(),
    }
}

/// The string a node stores, if it is a leaf.
pub open spec fn node_bits(n: TrieNode) -> Seq<bool> {
    match n.kind {
        NodeKind::Leaf { extent, .. } => bits_of(extent),
        NodeKind::Internal { .. } => Seq::empty(),
    }
}

/// The stored strings of the arena, in the order their leaves were created.
pub open spec fn leaves_of(nodes: Seq<TrieNode>) -> Seq<Seq<bool>>
    decreases nodes.len(),
{
    if nodes.len() == 0 {
        Seq::empty()
    } else if is_leaf(nodes.last()) {
        leaves_of(nodes.drop_last()).push(node_bits(nodes.last()))
    } else {
        leaves_of(nodes.drop_last())
    }
}

/// Appending a node appends its string, if any.
pub proof fn lemma_leaves_push(nodes: Seq<TrieNode>, n: TrieNode)
    ensures
        is_leaf(n) ==> leaves_of(nodes.push(n)) == leaves_of(nodes).push(node_bits(n)),
        !is_leaf(n) ==> leaves_of(nodes.push(n)) == leaves_of(nodes),
{
    assert(nodes.push(n).drop_last() =~= nodes);
    assert(nodes.push(n).last() == n);
}

/// Two arenas whose nodes agree on leaf-ness and stored strings hold the
/// same strings.
pub proof fn lemma_leaves_pointwise(a: Seq<TrieNode>, b: Seq<TrieNode>)
    requires
        a.len() == b.len(),
        forall|j: int| 0 <= j < a.len() ==> is_leaf(#[trigger] a[j]) == is_leaf(b[j]),
        forall|j: int|
            0 <= j < a.len() && is_leaf(#[trigger] a[j]) ==> node_bits(a[j]) == node_bits(b[j]),
    ensures
        leaves_of(a) == leaves_of(b),
    decreases a.len(),
{
    if a.len() > 0 {
        lemma_leaves_pointwise(a.drop_last(), b.drop_last());
        assert(forall|j: int|
            0 <= j < a.len() - 1 ==> #[trigger] a.drop_last()[j] == a[j] && b.drop_last()[j]
                == b[j]);
        assert(is_leaf(a.last()) == is_leaf(b.last())) by {
            assert(a.last() == a[a.len() - 1] && b.last() == b[b.len() - 1]);
        }
        if is_leaf(a.last()) {
            assert(node_bits(a.last()) == node_bits(b.last())) by {
                assert(a.last() == a[a.len() - 1] && b.last() == b[b.len() - 1]);
            }
        }
    } else {
        assert(a =~= b);
    }
}

/// An arena that holds a leaf holds at least one string.
proof fn lemma_leaf_counted(nodes: Seq<TrieNode>, j: int)
    requires
        0 <= j < nodes.len(),
        is_leaf(nodes[j]),
    ensures
        leaves_of(nodes).len() >= 1,
    decreases nodes.len(),
{
    if j == nodes.len() - 1 {
        assert(nodes.last() == nodes[j]);
    } else {
        assert(nodes.drop_last()[j] == nodes[j]);
        lemma_leaf_counted(nodes.drop_last(), j);
    }
}

/// A nonempty well-formed arena holds at least one stored string: its
/// first node cannot point below itself, so it is a leaf.
pub(crate) proof fn lemma_nonempty_arena_has_string(nodes: Seq<TrieNode>, model: Seq<Seq<bool>>)
    requires
        arena_wf(nodes, model),
        nodes.len() > 0,
    ensures
        leaves_of(nodes).len() >= 1,
        is_leaf(nodes[0]),
{
    assert(node_wf(nodes, model, 0));
    assert(is_leaf(nodes[0])) by {
        match nodes[0].kind {
            NodeKind::Internal { left, .. } => {
                assert(left < 0);
            },
            NodeKind::Leaf { .. } => {},
        }
    }
    lemma_leaf_counted(nodes, 0);
}

/// In a one-node arena, the node is a leaf holding the single stored
/// string.
pub(crate) proof fn lemma_single_node(nodes: Seq<TrieNode>, model: Seq<Seq<bool>>)
    requires
        arena_wf(nodes, model),
        nodes.len() == 1,
        leaves_of(nodes) == model,
    ensures
        is_leaf(nodes[0]),
        model == seq![node_bits(nodes[0])],
        extent_of(nodes, 0) == node_bits(nodes[0]),
        model.contains(node_bits(nodes[0])),
        forall|t: Seq<bool>| #[trigger] model.contains(t) ==> t == node_bits(nodes[0]),
{
    assert(node_wf(nodes, model, 0));
    assert(is_leaf(nodes[0])) by {
        match nodes[0].kind {
            NodeKind::Internal { left, .. } => {
                assert(left < 0);
            },
            NodeKind::Leaf { .. } => {},
        }
    }
    assert(nodes.drop_last() =~= Seq::<TrieNode>::empty());
    assert(nodes.last() == nodes[0]);
    assert(leaves_of(nodes.drop_last()) =~= Seq::<Seq<bool>>::empty());
    assert(leaves_of(nodes) == Seq::<Seq<bool>>::empty().push(node_bits(nodes[0])));
    assert(model =~= seq![node_bits(nodes[0])]);
    assert(model.contains(node_bits(nodes[0]))) by {
        assert(model[0] == node_bits(nodes[0]));
    }
    assert forall|t: Seq<bool>| #[trigger] model.contains(t) implies t == node_bits(
        nodes[0],
    ) by {
        let i = choose|i: int| 0 <= i < model.len() && model[i] == t;
    }
}

pub open spec fn arena_wf(nodes: Seq<TrieNode>, model: Seq<Seq<bool>>) -> bool {
    forall|i: int| 0 <= i < nodes.len() ==> #[trigger] node_wf(nodes, model, i)
}

/// What survives of a node when later construction steps may thread the
/// leaf list through it: everything except a leaf's `next` link.
pub open spec fn node_frozen(a: TrieNode, b: TrieNode) -> bool {
    &&& a.lind == b.lind
    &&& match (a.kind, b.kind) {
        (NodeKind::Internal { left: l1, right: r1, to_leaf: t1, .. },
            NodeKind::Internal { left: l2, right: r2, to_leaf: t2, .. }) => l1 == l2 && r1 == r2
            && t1 == t2,
        (NodeKind::Leaf { prev: p1, extent: e1, .. },
            NodeKind::Leaf { prev: p2, extent: e2, .. }) => p1 == p2 && bits_of(e1) == bits_of(
            e2,
        ),
        _ => false,
    }
}

/// No leaf sits strictly between `a` and `b` in the arena.
pub open spec fn no_leaf_between(nodes: Seq<TrieNode>, a: int, b: int) -> bool {
    forall|j: int| a < j < b ==> !is_leaf(#[trigger] nodes[j])
}

/// The leaves are threaded into a doubly linked list in arena order: each
/// leaf's `prev` and `next` point at the nearest leaf on either side, or
/// at nothing beyond the first and last leaf.
pub open spec fn list_ok_at(nodes: Seq<TrieNode>, i: int) -> bool {
    match nodes[i].kind {
        NodeKind::Leaf { prev, next, .. } => {
            &&& (match prev {
                Some(p) => p < i && is_leaf(nodes[p as int]) && no_leaf_between(nodes, p as int, i),
                None => no_leaf_between(nodes, -1, i),
            })
            &&& (match next {
                Some(q) => i < q < nodes.len() && is_leaf(nodes[q as int]) && no_leaf_between(
                    nodes,
                    i,
                    q as int,
                ),
                None => no_leaf_between(nodes, i, nodes.len() as int),
            })
        },
        NodeKind::Internal { .. } => true,
    }
}

pub open spec fn list_wf(nodes: Seq<TrieNode>) -> bool {
    forall|i: int| 0 <= i < nodes.len() && is_leaf(nodes[i]) ==> #[trigger] list_ok_at(nodes, i)
}

/// `ll` names the last leaf of the arena, if any leaf exists.
pub open spec fn last_leaf_ok(nodes: Seq<TrieNode>, ll: Option<usize>) -> bool {
    match ll {
        Some(p) => p < nodes.len() && is_leaf(nodes[p as int]) && no_leaf_between(
            nodes,
            p as int,
            nodes.len() as int,
        ),
        None => no_leaf_between(nodes, -1, nodes.len() as int),
    }
}

/// Appending a non-leaf node disturbs no leaf's threading.
proof fn lemma_list_wf_push(nodes: Seq<TrieNode>, n: TrieNode)
    requires
        list_wf(nodes),
        !is_leaf(n),
    ensures
        list_wf(nodes.push(n)),
{
    let b = nodes.push(n);
    assert(forall|t: int| 0 <= t < nodes.len() ==> #[trigger] b[t] == nodes[t]);
    assert forall|j: int| 0 <= j < b.len() && is_leaf(b[j]) implies #[trigger] list_ok_at(
        b,
        j,
    ) by {
        assert(j < nodes.len());
        assert(list_ok_at(nodes, j));
        match b[j].kind {
            NodeKind::Leaf { prev, next, .. } => {
                match prev {
                    Some(p) => {
                        assert forall|t: int| p < t < j implies !is_leaf(b[t]) by {
                            assert(!is_leaf(nodes[t]));
                        }
                    },
                    None => {
                        assert forall|t: int| -1 < t < j implies !is_leaf(b[t]) by {
                            assert(!is_leaf(nodes[t]));
                        }
                    },
                }
                match next {
                    Some(q) => {
                        assert forall|t: int| j < t < q implies !is_leaf(b[t]) by {
                            assert(!is_leaf(nodes[t]));
                        }
                    },
                    None => {
                        assert forall|t: int| j < t < b.len() implies !is_leaf(b[t]) by {
                            if t < nodes.len() {
                                assert(!is_leaf(nodes[t]));
                            }
                        }
                    },
                }
            },
            NodeKind::Internal { .. } => {},
        }
    }
}

/// The number of leaves in the arena strictly below index `i`.
pub open spec fn leaf_count(nodes: Seq<TrieNode>, i: int) -> int {
    leaves_of(nodes.take(i)).len() as int
}

/// Extending the prefix by one node adds its string, if it is a leaf.
proof fn lemma_count_step(nodes: Seq<TrieNode>, b: int)
    requires
        1 <= b <= nodes.len(),
    ensures
        is_leaf(nodes[b - 1]) ==> leaf_count(nodes, b) == leaf_count(nodes, b - 1) + 1,
        !is_leaf(nodes[b - 1]) ==> leaf_count(nodes, b) == leaf_count(nodes, b - 1),
{
    assert(nodes.take(b) =~= nodes.take(b - 1).push(nodes[b - 1]));
    lemma_leaves_push(nodes.take(b - 1), nodes[b - 1]);
}

/// Without leaves in between, the count does not move.
proof fn lemma_count_stable(nodes: Seq<TrieNode>, a: int, b: int)
    requires
        0 <= a <= b <= nodes.len(),
        forall|t: int| a <= t < b ==> !is_leaf(#[trigger] nodes[t]),
    ensures
        leaf_count(nodes, b) == leaf_count(nodes, a),
    decreases b - a,
{
    if a < b {
        lemma_count_stable(nodes, a, b - 1);
        lemma_count_step(nodes, b);
    }
}

/// A leaf at arena index `i` holds the stored string whose position is the
/// number of leaves before it.
proof fn lemma_leaf_maps(nodes: Seq<TrieNode>, i: int)
    requires
        0 <= i < nodes.len(),
        is_leaf(nodes[i]),
    ensures
        0 <= leaf_count(nodes, i) < leaves_of(nodes).len(),
        leaves_of(nodes)[leaf_count(nodes, i)] == node_bits(nodes[i]),
    decreases nodes.len(),
{
    if i == nodes.len() - 1 {
        assert(nodes.take(i) =~= nodes.drop_last());
        assert(nodes.last() == nodes[i]);
    } else {
        let dl = nodes.drop_last();
        assert(dl[i] == nodes[i]);
        lemma_leaf_maps(dl, i);
        assert(nodes.take(i) =~= dl.take(i));
        assert(nodes.last() == nodes[nodes.len() - 1]);
        if is_leaf(nodes.last()) {
            assert(leaves_of(nodes) == leaves_of(dl).push(node_bits(nodes.last())));
        } else {
            assert(leaves_of(nodes) == leaves_of(dl));
        }
    }
}

/// Adjacent leaves hold adjacent stored strings.
proof fn lemma_adjacent_counts(nodes: Seq<TrieNode>, i: int, q: int)
    requires
        0 <= i < q < nodes.len(),
        is_leaf(nodes[i]),
        is_leaf(nodes[q]),
        forall|t: int| i < t < q ==> !is_leaf(#[trigger] nodes[t]),
    ensures
        leaf_count(nodes, q) == leaf_count(nodes, i) + 1,
{
    lemma_count_step(nodes, i + 1);
    lemma_count_stable(nodes, i + 1, q);
}

/// A leaf with nothing before it holds the first stored string.
proof fn lemma_first_leaf(nodes: Seq<TrieNode>, i: int)
    requires
        0 <= i < nodes.len(),
        forall|t: int| 0 <= t < i ==> !is_leaf(#[trigger] nodes[t]),
    ensures
        leaf_count(nodes, i) == 0,
{
    assert(nodes.take(0) =~= Seq::<TrieNode>::empty());
    lemma_count_stable(nodes, 0, i);
}

/// A leaf with nothing after it holds the last stored string.
proof fn lemma_last_leaf(nodes: Seq<TrieNode>, i: int)
    requires
        0 <= i < nodes.len(),
        is_leaf(nodes[i]),
        forall|t: int| i < t < nodes.len() ==> !is_leaf(#[trigger] nodes[t]),
    ensures
        leaf_count(nodes, i) == leaves_of(nodes).len() - 1,
{
    assert(nodes.take(nodes.len() as int) =~= nodes);
    lemma_count_step(nodes, i + 1);
    lemma_count_stable(nodes, i + 1, nodes.len() as int);
}

/// The largest power of two dividing `k`.
fn low_pow(k: usize) -> (p: usize)
    requires
        k >= 1,
    ensures
        p <= k,
        exists|t: nat|
            p == pow2(t) && #[trigger] (k as int % pow2(t) as int) == 0 && (k as int / pow2(
                t,
            ) as int) % 2 == 1,
{
    let mut p: usize = 1;
    let mut kk: usize = k;
    let ghost mut t: nat = 0nat;
    proof {
        vstd::arithmetic::power2::lemma2_to64();
    }
    while kk % 2 == 0
        invariant
            k >= 1,
            p == pow2(t),
            kk == k as int / pow2(t) as int,
            k as int % pow2(t) as int == 0,
            kk >= 1,
            p <= k,
        decreases kk,
    {
        proof {
            lemma_pow2_pos(t);
            lemma_pow2_unfold(t + 1);
            // k is pow2(t) * kk, and kk is even, so pow2(t + 1) divides k
            lemma_fundamental_div_mod(k as int, pow2(t) as int);
            lemma_fundamental_div_mod(kk as int, 2);
            assert(k as int == pow2(t) as int * (2 * (kk as int / 2)));
            assert(k as int == pow2(t + 1) as int * (kk as int / 2)) by {
                vstd::arithmetic::mul::lemma_mul_is_associative(
                    pow2(t) as int,
                    2,
                    kk as int / 2,
                );
                vstd::arithmetic::mul::lemma_mul_is_commutative(pow2(t) as int, 2);
            }
            lemma_pow2_pos(t + 1);
            assert(kk as int / 2 >= 1);
            lemma_fundamental_div_mod_converse(
                k as int,
                pow2(t + 1) as int,
                kk as int / 2,
                0,
            );
            assert((kk as int / 2) * pow2(t + 1) as int == pow2(t + 1) as int * (kk as int / 2))
                by {
                vstd::arithmetic::mul::lemma_mul_is_commutative(
                    kk as int / 2,
                    pow2(t + 1) as int,
                );
            }
            vstd::arithmetic::mul::lemma_mul_inequality(
                1,
                kk as int / 2,
                pow2(t + 1) as int,
            );
        }
        kk = kk / 2;
        p = p * 2;
        proof {
            t = t + 1nat;
        }
    }
    p
}

/// The doubling step of the fat search leaves the node's depth range: the
/// 2-fattest number of `[lind, rind]` plus its own lowest power of two is
/// divisible by a higher power than anything in the range, so it lies
/// beyond `rind`.
proof fn lemma_jump_exceeds(rind: usize, lind: usize, f: usize, p: usize, j: nat, t: nat)
    requires
        1 <= lind <= f <= rind,
        fattest_witness(rind, lind, f, j),
        p == pow2(t),
        f as int % pow2(t) as int == 0,
        (f as int / pow2(t) as int) % 2 == 1,
    ensures
        f + p > rind,
{
    lemma_pow2_pos(t);
    lemma_pow2_pos(j);
    lemma_pow2_pos(j + 1);
    lemma_pow2_pos(t + 1);
    // f is divisible by pow2(j) by the fattest witness
    assert(f as int % pow2(j) as int == 0) by {
        assert(f == (rind as int / pow2(j) as int) * pow2(j));
        vstd::arithmetic::div_mod::lemma_mod_multiples_basic(
            rind as int / pow2(j) as int,
            pow2(j) as int,
        );
    }
    // the exact power pow2(t) is at least pow2(j)
    assert(t >= j) by {
        if t < j {
            // then pow2(t + 1) divides pow2(j), hence divides f, making
            // f / pow2(t) even
            vstd::arithmetic::power2::lemma_pow2_adds(t + 1, (j - t - 1) as nat);
            lemma_fundamental_div_mod(f as int, pow2(j) as int);
            let m = f as int / pow2(j) as int;
            assert(f as int == pow2(j) as int * m);
            assert(pow2(j) as int == pow2(t + 1) as int * pow2((j - t - 1) as nat) as int);
            assert(f as int == pow2(t + 1) as int * (pow2((j - t - 1) as nat) as int * m)) by {
                vstd::arithmetic::mul::lemma_mul_is_associative(
                    pow2(t + 1) as int,
                    pow2((j - t - 1) as nat) as int,
                    m,
                );
            }
            let q = pow2((j - t - 1) as nat) as int * m;
            lemma_pow2_unfold(t + 1);
            lemma_pow2_unfold(t + 1);
            assert(pow2(t + 1) as int == pow2(t) as int * 2) by {
                vstd::arithmetic::mul::lemma_mul_is_commutative(2, pow2(t) as int);
            }
            assert(f as int == pow2(t) as int * (2 * q)) by {
                vstd::arithmetic::mul::lemma_mul_is_associative(pow2(t) as int, 2, q);
            }
            assert(m >= 0) by {
                vstd::arithmetic::div_mod::lemma_div_pos_is_pos(f as int, pow2(j) as int);
            }
            assert(q >= 0) by {
                vstd::arithmetic::mul::lemma_mul_nonnegative(
                    pow2((j - t - 1) as nat) as int,
                    m,
                );
            }
            lemma_fundamental_div_mod_converse(f as int, pow2(t) as int, 2 * q, 0);
            assert((2 * q) % 2 == 0) by {
                vstd::arithmetic::div_mod::lemma_mod_multiples_basic(q, 2);
                vstd::arithmetic::mul::lemma_mul_is_commutative(2, q);
            }
        }
    }
    // f + p is divisible by pow2(j + 1)
    let m = f as int / pow2(t) as int;
    lemma_fundamental_div_mod(f as int, pow2(t) as int);
    assert(f as int == pow2(t) as int * m);
    assert(f as int + p as int == pow2(t) as int * (m + 1)) by {
        vstd::arithmetic::mul::lemma_mul_is_distributive_add(pow2(t) as int, m, 1);
    }
    lemma_fundamental_div_mod(m, 2);
    assert(m == 2 * (m / 2) + 1);
    assert(m + 1 == 2 * (m / 2 + 1));
    lemma_pow2_unfold(t + 1);
    assert(f as int + p as int == pow2(t + 1) as int * (m / 2 + 1)) by {
        vstd::arithmetic::mul::lemma_mul_is_associative(pow2(t) as int, 2, m / 2 + 1);
        vstd::arithmetic::mul::lemma_mul_is_commutative(pow2(t) as int, 2);
    }
    vstd::arithmetic::power2::lemma_pow2_adds(j + 1, (t - j) as nat);
    assert(f as int + p as int == pow2(j + 1) as int * (pow2((t - j) as nat) as int * (m / 2
        + 1))) by {
        vstd::arithmetic::mul::lemma_mul_is_associative(
            pow2(j + 1) as int,
            pow2((t - j) as nat) as int,
            m / 2 + 1,
        );
    }
    assert((f + p) as int % pow2(j + 1) as int == 0) by {
        vstd::arithmetic::div_mod::lemma_mod_multiples_basic(
            pow2((t - j) as nat) as int * (m / 2 + 1),
            pow2(j + 1) as int,
        );
        vstd::arithmetic::mul::lemma_mul_is_commutative(
            pow2(j + 1) as int,
            pow2((t - j) as nat) as int * (m / 2 + 1),
        );
    }
    // were f + p still inside the range, it would be fatter than f
    if f + p <= rind {
        lemma_fattest_no_fatter(rind, lind, f, j, (f + p) as int);
    }
}

/// The depth at which the node's extent ends.
pub(crate) fn get_rind(nodes: &Vec<TrieNode>, i: usize, Ghost(model): Ghost<Seq<Seq<bool>>>) -> (r: usize)
    requires
        arena_wf(nodes@, model),
        i < nodes@.len(),
    ensures
        r == rind_of(nodes@, i as int),
        nodes@[i as int].lind <= r,
{
    assert(node_wf(nodes@, model, i as int));
    let node = &nodes[i];
    match &node.kind {
        NodeKind::Internal { left, .. } => {
            proof {
                assert(node_wf(nodes@, model, i as int));
            }
            nodes[*left].lind - 1
        },
        NodeKind::Leaf { extent, .. } => str_len(extent),
    }
}

/// Overwrites a leaf's forward link in the sorted list of leaves.
fn set_leaf_next(
    nodes: &mut Vec<TrieNode>,
    p: usize,
    nxt: usize,
    Ghost(model): Ghost<Seq<Seq<bool>>>,
)
    requires
        arena_wf(old(nodes)@, model),
        p < old(nodes)@.len(),
        is_leaf(old(nodes)@[p as int]),
        nxt < old(nodes)@.len(),
        is_leaf(old(nodes)@[nxt as int]),
        nxt == old(nodes)@.len() - 1,
        p < nxt,
        no_leaf_between(old(nodes)@, p as int, nxt as int),
        list_wf(old(nodes)@.drop_last()),
        list_ok_at(old(nodes)@, nxt as int),
    ensures
        final(nodes)@.len() == old(nodes)@.len(),
        arena_wf(final(nodes)@, model),
        forall|j: int|
            0 <= j < old(nodes)@.len() ==> node_frozen(old(nodes)@[j], #[trigger] final(nodes)@[j]),
        forall|j: int| 0 <= j < old(nodes)@.len() && j != p ==> final(nodes)@[j] == old(nodes)@[j],
        leaves_of(final(nodes)@) == leaves_of(old(nodes)@),
        list_wf(final(nodes)@),
{
    let lind = nodes[p].lind;
    let (pv, eb) = match &nodes[p].kind {
        NodeKind::Leaf { prev, extent, .. } => (*prev, str_clone(extent)),
        NodeKind::Internal { .. } => (None, str_new()),
    };
    let node = TrieNode { lind, kind: NodeKind::Leaf { prev: pv, next: Some(nxt), extent: eb } };
    nodes[p] = node;
    proof {
        assert forall|j: int| 0 <= j < final(nodes)@.len() implies node_wf(final(nodes)@, model, j) by {
            assert(node_wf(old(nodes)@, model, j));
        }
        lemma_leaves_pointwise(old(nodes)@, nodes@);
        let pre = old(nodes)@;
        let dl = pre.drop_last();
        assert(forall|t: int| 0 <= t < pre.len() && t != p ==> nodes@[t] == pre[t]);
        assert(forall|t: int| 0 <= t < dl.len() ==> #[trigger] dl[t] == pre[t]);
        assert(forall|t: int|
            0 <= t < nodes@.len() ==> is_leaf(#[trigger] nodes@[t]) == is_leaf(pre[t]));
        assert forall|j: int|
            0 <= j < nodes@.len() && is_leaf(nodes@[j]) implies #[trigger] list_ok_at(
            nodes@,
            j,
        ) by {
            if j == p as int {
                assert(list_ok_at(dl, j));
                match pv {
                    Some(p2) => {
                        assert(is_leaf(nodes@[p2 as int])) by {
                            assert(is_leaf(dl[p2 as int]));
                        }
                        assert forall|t: int| p2 < t < j implies !is_leaf(nodes@[t]) by {
                            assert(!is_leaf(dl[t]));
                        }
                    },
                    None => {
                        assert forall|t: int| -1 < t < j implies !is_leaf(nodes@[t]) by {
                            assert(!is_leaf(dl[t]));
                        }
                    },
                }
                assert forall|t: int| j < t < nxt implies !is_leaf(nodes@[t]) by {
                    assert(!is_leaf(pre[t]));
                }
            } else if j == nxt as int {
                assert(list_ok_at(pre, j));
                match pre[j].kind {
                    NodeKind::Leaf { prev: pv2, next: nx2, .. } => {
                        match pv2 {
                            Some(p2) => {
                                assert(is_leaf(nodes@[p2 as int])) by {
                                    assert(is_leaf(pre[p2 as int]));
                                }
                                assert forall|t: int| p2 < t < j implies !is_leaf(nodes@[t]) by {
                                    assert(!is_leaf(pre[t]));
                                }
                            },
                            None => {
                                assert forall|t: int| -1 < t < j implies !is_leaf(nodes@[t]) by {
                                    assert(!is_leaf(pre[t]));
                                }
                            },
                        }
                        match nx2 {
                            Some(q) => {
                                assert(is_leaf(nodes@[q as int])) by {
                                    assert(is_leaf(pre[q as int]));
                                }
                                assert forall|t: int| j < t < q implies !is_leaf(nodes@[t]) by {
                                    assert(!is_leaf(pre[t]));
                                }
                            },
                            None => {
                                assert forall|t: int|
                                    j < t < nodes@.len() implies !is_leaf(nodes@[t]) by {
                                    assert(!is_leaf(pre[t]));
                                }
                            },
                        }
                    },
                    NodeKind::Internal { .. } => {},
                }
            } else {
                assert(list_ok_at(dl, j));
                match nodes@[j].kind {
                    NodeKind::Leaf { prev: pv2, next: nx2, .. } => {
                        match pv2 {
                            Some(p2) => {
                                assert(is_leaf(nodes@[p2 as int])) by {
                                    assert(is_leaf(dl[p2 as int]));
                                }
                                assert forall|t: int| p2 < t < j implies !is_leaf(nodes@[t]) by {
                                    assert(!is_leaf(dl[t]));
                                }
                            },
                            None => {
                                assert forall|t: int| -1 < t < j implies !is_leaf(nodes@[t]) by {
                                    assert(!is_leaf(dl[t]));
                                }
                            },
                        }
                        match nx2 {
                            Some(q) => {
                                assert(is_leaf(nodes@[q as int])) by {
                                    assert(is_leaf(dl[q as int]));
                                }
                                assert forall|t: int| j < t < q implies !is_leaf(nodes@[t]) by {
                                    assert(!is_leaf(dl[t]));
                                }
                            },
                            None => {
                                // a third leaf with no forward link would sit
                                // behind p, contradicting the shorter arena
                                if j < p as int {
                                    assert(!is_leaf(dl[p as int]));
                                } else {
                                    assert(!is_leaf(pre[j]));
                                }
                            },
                        }
                    },
                    NodeKind::Internal { .. } => {},
                }
            }
        }
    }
}

/// Overwrites the depth at which a node's incoming edge begins.
fn set_lind(nodes: &mut Vec<TrieNode>, i: usize, lind: usize, Ghost(model): Ghost<Seq<Seq<bool>>>)
    requires
        arena_wf(old(nodes)@, model),
        i == old(nodes)@.len() - 1,
        i < old(nodes)@.len(),
        lind <= old(nodes)@[i as int].lind,
    ensures
        final(nodes)@.len() == old(nodes)@.len(),
        arena_wf(final(nodes)@, model),
        forall|j: int| 0 <= j < old(nodes)@.len() && j != i ==> final(nodes)@[j] == old(nodes)@[j],
        final(nodes)@[i as int].lind == lind,
        old(nodes)@[i as int].kind is Internal ==> final(nodes)@[i as int].kind
            == old(nodes)@[i as int].kind,
        is_leaf(final(nodes)@[i as int]) == is_leaf(old(nodes)@[i as int]),
        leaf_bits(final(nodes)@, i as int) == leaf_bits(old(nodes)@, i as int),
        leaves_of(final(nodes)@) == leaves_of(old(nodes)@),
        list_wf(old(nodes)@) ==> list_wf(final(nodes)@),
{
    let kind = match &nodes[i].kind {
        NodeKind::Leaf { prev, next, extent } => NodeKind::Leaf {
            prev: *prev,
            next: *next,
            extent: str_clone(extent),
        },
        NodeKind::Internal { left, right, jump_left, jump_right, to_leaf } => NodeKind::Internal {
            left: *left,
            right: *right,
            jump_left: *jump_left,
            jump_right: *jump_right,
            to_leaf: *to_leaf,
        },
    };
    let node = TrieNode { lind, kind };
    proof {
        assert(node_wf(old(nodes)@, model, i as int));
    }
    nodes[i] = node;
    proof {
        assert forall|j: int| 0 <= j < final(nodes)@.len() implies node_wf(final(nodes)@, model, j) by {
            assert(node_wf(old(nodes)@, model, j));
        }
        lemma_leaves_pointwise(old(nodes)@, nodes@);
        if list_wf(old(nodes)@) {
            let pre = old(nodes)@;
            assert(forall|t: int|
                0 <= t < nodes@.len() ==> is_leaf(#[trigger] nodes@[t]) == is_leaf(pre[t]));
            assert forall|j: int|
                0 <= j < nodes@.len() && is_leaf(nodes@[j]) implies #[trigger] list_ok_at(
                nodes@,
                j,
            ) by {
                assert(list_ok_at(pre, j));
                if j == i as int {
                    match (nodes@[j].kind, pre[j].kind) {
                        (NodeKind::Leaf { prev: pv1, next: nx1, .. },
                            NodeKind::Leaf { prev: pv2, next: nx2, .. }) => {
                            assert(pv1 == pv2 && nx1 == nx2);
                        },
                        _ => {},
                    }
                }
            }
        }
    }
}

/// No string of the set is a prefix of another (which also rules out
/// duplicates).
pub open spec fn prefix_free(m: Seq<Seq<bool>>) -> bool {
    forall|i: int, j: int|
        0 <= i < m.len() && 0 <= j < m.len() && i != j ==> !is_prefix(#[trigger] m[i], #[trigger] m[j])
}

/// Builds the compacted trie over `v[l..r]`, whose strings are sorted,
/// prefix-free, and share their first `ind` bits, threading the leaves into
/// a linked list as they appear. Returns the subtree root and its rightmost
/// leaf.
#[verifier::rlimit(30)]
pub(crate) fn build_tree(
    nodes: &mut Vec<TrieNode>,
    v: &Vec<Str>,
    ind: usize,
    l: usize,
    r: usize,
    last_leaf: &mut Option<usize>,
    Ghost(model): Ghost<Seq<Seq<bool>>>,
) -> (res: (Option<usize>, Option<usize>))
    requires
        arena_wf(old(nodes)@, model),
        l <= r <= v@.len(),
        sorted_strs(strs_of(v@)),
        prefix_free(strs_of(v@)),
        forall|q: int| l <= q < r ==> model.contains(#[trigger] strs_of(v@)[q]),
        forall|q: int|
            l <= q < r ==> ind <= (#[trigger] strs_of(v@)[q]).len() < 0x40000000,
        forall|q1: int, q2: int|
            l <= q1 < r && l <= q2 < r ==> (#[trigger] strs_of(v@)[q1]).take(ind as int)
                == (#[trigger] strs_of(v@)[q2]).take(ind as int),
        (*old(last_leaf)) matches Some(p) ==> p < old(nodes)@.len() && is_leaf(
            old(nodes)@[p as int],
        ),
        list_wf(old(nodes)@),
        last_leaf_ok(old(nodes)@, *old(last_leaf)),
    ensures
        final(nodes)@.len() >= old(nodes)@.len(),
        l < r ==> final(nodes)@.len() > old(nodes)@.len(),
        l < r ==> final(nodes)@.len() == old(nodes)@.len() + 2 * (r - l) - 1,
        forall|j: int|
            0 <= j < old(nodes)@.len() ==> node_frozen(old(nodes)@[j], #[trigger] final(nodes)@[j]),
        arena_wf(final(nodes)@, model),
        l == r ==> final(nodes)@.len() == old(nodes)@.len() && res.0 is None && *final(last_leaf)
            == *old(last_leaf),
        l < r ==> (match res.0 {
            Some(rt) => rt == final(nodes)@.len() - 1 && final(nodes)@[rt as int].lind == ind,
            None => false,
        }),
        l < r ==> (match res.1 {
            Some(lf) => lf < final(nodes)@.len() && is_leaf(final(nodes)@[lf as int]) && leaf_bits(
                final(nodes)@,
                lf as int,
            ).len() >= ind,
            None => false,
        }),
        (*final(last_leaf)) matches Some(p) ==> p < final(nodes)@.len() && is_leaf(
            final(nodes)@[p as int],
        ),
        l < r ==> *final(last_leaf) == res.1,
        list_wf(final(nodes)@),
        last_leaf_ok(final(nodes)@, *final(last_leaf)),
        leaves_of(final(nodes)@) == leaves_of(old(nodes)@) + strs_of(v@).subrange(
            l as int,
            r as int,
        ),
    decreases r - l, (if l < r {
        strs_of(v@)[l as int].len() + 1 - ind
    } else {
        0int
    }),
{
    let ghost m = strs_of(v@);
    if l == r {
        proof {
            assert(leaves_of(nodes@) + m.subrange(l as int, r as int) =~= leaves_of(nodes@));
        }
        return (None, None);
    }
    proof {
        // on a range of two or more, the shared prefix cannot exhaust any
        // string: that string would be a prefix of its neighbour
        if l + 1 < r {
            assert forall|q: int| l <= q < r implies ind < (#[trigger] m[q]).len() by {
                if ind == m[q].len() {
                    let q2: int = if q == l {
                        l + 1
                    } else {
                        l as int
                    };
                    assert(m[q].take(ind as int) == m[q2].take(ind as int));
                    assert(m[q].take(ind as int) =~= m[q]);
                    assert(is_prefix(m[q], m[q2])) by {
                        assert(m[q2].take(ind as int) == m[q]);
                    }
                }
            }
        }
    }
    if l + 1 == r {
        let extent = str_clone(&v[l]);
        let prev = *last_leaf;
        let node = TrieNode { lind: ind, kind: NodeKind::Leaf { prev, next: None, extent } };
        let ghost pre = nodes@;
        nodes.push(node);
        let idx = nodes.len() - 1;
        proof {
            assert forall|j: int| 0 <= j < nodes@.len() implies node_wf(nodes@, model, j) by {
                if j < pre.len() {
                    assert(node_wf(pre, model, j));
                } else {
                    assert(m[l as int] == bits_of(extent));
                }
            }
            lemma_leaves_push(pre, node);
            assert(leaves_of(nodes@) =~= leaves_of(pre) + m.subrange(l as int, r as int));
            assert(nodes@.drop_last() =~= pre);
            assert(forall|t: int| 0 <= t < pre.len() ==> #[trigger] nodes@[t] == pre[t]);
        }
        match prev {
            Some(p) => {
                proof {
                    // the appended leaf follows the previous last leaf with
                    // only internal nodes in between
                    assert forall|t: int| p < t < idx implies !is_leaf(nodes@[t]) by {
                        assert(!is_leaf(pre[t]));
                    }
                    assert(list_ok_at(nodes@, idx as int));
                }
                set_leaf_next(nodes, p, idx, Ghost(model));
            },
            None => {
                proof {
                    assert forall|j: int|
                        0 <= j < nodes@.len() && is_leaf(nodes@[j]) implies #[trigger] list_ok_at(
                        nodes@,
                        j,
                    ) by {
                        if j < pre.len() {
                            assert(!is_leaf(pre[j]));
                        } else {
                            assert forall|t: int| -1 < t < j implies !is_leaf(nodes@[t]) by {
                                assert(!is_leaf(pre[t]));
                            }
                        }
                    }
                }
            },
        }
        *last_leaf = Some(idx);
        proof {
            assert(forall|j: int|
                0 <= j < pre.len() ==> node_frozen(pre[j], #[trigger] nodes@[j]));
            assert(last_leaf_ok(nodes@, Some(idx))) by {
                assert(is_leaf(nodes@[idx as int]));
            }
        }
        return (Some(idx), Some(idx));
    }
    // split the range at the first string whose bit at `ind` is set
    proof {
        assert(forall|q: int| l <= q < r ==> ind < (#[trigger] m[q]).len());
        assert(forall|q: int| 0 <= q < v@.len() ==> #[trigger] m[q] == bits_of(v@[q]));
        assert(ind < bits_of(v@[l as int]).len());
    }
    let mut mid = l;
    while mid < r && !str_get(&v[mid], ind)
        invariant
            l <= mid <= r,
            r <= v@.len(),
            m == strs_of(v@),
            forall|q: int| 0 <= q < v@.len() ==> m[q] == #[trigger] bits_of(v@[q]),
            forall|q: int| l <= q < r ==> ind < (#[trigger] m[q]).len(),
            forall|q: int| l <= q < mid ==> !(#[trigger] m[q])[ind as int],
        decreases r - mid,
    {
        mid = mid + 1;
    }
    proof {
        // sortedness makes the bit at `ind` monotone over the range
        if mid < r {
            assert(m[mid as int][ind as int]);
            assert forall|q: int| mid <= q < r implies (#[trigger] m[q])[ind as int] by {
                if !m[q][ind as int] && q != mid {
                    assert forall|x: int| 0 <= x < ind implies m[q][x] == m[mid as int][x] by {
                        assert(m[q].take(ind as int) == m[mid as int].take(ind as int));
                        assert(m[q].take(ind as int)[x] == m[q][x]);
                        assert(m[mid as int].take(ind as int)[x] == m[mid as int][x]);
                    }
                    crate::bitstr::lemma_lex_diverge(m[q], m[mid as int], ind as int);
                    lemma_lex_total(m[mid as int], m[q]);
                }
            }
        }
    }
    if mid != l && mid != r {
        proof {
            // each half shares one more bit
            assert forall|q1: int, q2: int|
                l <= q1 < mid && l <= q2 < mid implies (#[trigger] m[q1]).take(ind + 1)
                == (#[trigger] m[q2]).take(ind + 1) by {
                assert(m[q1].take(ind as int) == m[q2].take(ind as int));
                assert forall|x: int| 0 <= x < ind + 1 implies m[q1][x] == m[q2][x] by {
                    if x < ind {
                        assert(m[q1].take(ind as int)[x] == m[q1][x]);
                        assert(m[q2].take(ind as int)[x] == m[q2][x]);
                    }
                }
                assert(m[q1].take(ind + 1) =~= m[q2].take(ind + 1));
            }
            assert forall|q1: int, q2: int|
                mid <= q1 < r && mid <= q2 < r implies (#[trigger] m[q1]).take(ind + 1)
                == (#[trigger] m[q2]).take(ind + 1) by {
                assert(m[q1].take(ind as int) == m[q2].take(ind as int));
                assert forall|x: int| 0 <= x < ind + 1 implies m[q1][x] == m[q2][x] by {
                    if x < ind {
                        assert(m[q1].take(ind as int)[x] == m[q1][x]);
                        assert(m[q2].take(ind as int)[x] == m[q2][x]);
                    }
                }
                assert(m[q1].take(ind + 1) =~= m[q2].take(ind + 1));
            }
        }
        let ghost pre = nodes@;
        let (lo, pl) = build_tree(nodes, v, ind + 1, l, mid, last_leaf, Ghost(model));
        let ghost mid_nodes = nodes@;
        let (ro, pr) = build_tree(nodes, v, ind + 1, mid, r, last_leaf, Ghost(model));
        let li = match lo {
            Some(x) => x,
            None => 0,
        };
        let ri = match ro {
            Some(x) => x,
            None => 0,
        };
        let tl = match pl {
            Some(x) => x,
            None => 0,
        };
        proof {
            // the left subtree's nodes survive the right subtree's build
            assert(node_frozen(mid_nodes[li as int], nodes@[li as int]));
            assert(node_frozen(mid_nodes[tl as int], nodes@[tl as int]));
        }
        let node = TrieNode {
            lind: ind,
            kind: NodeKind::Internal {
                left: li,
                right: ri,
                jump_left: li,
                jump_right: ri,
                to_leaf: tl,
            },
        };
        let ghost pre2 = nodes@;
        nodes.push(node);
        let idx = nodes.len() - 1;
        proof {
            assert forall|j: int| 0 <= j < nodes@.len() implies node_wf(nodes@, model, j) by {
                if j < pre2.len() {
                    assert(node_wf(pre2, model, j));
                } else {
                    assert(node_wf(pre2, model, li as int));
                    assert(node_wf(pre2, model, ri as int));
                }
            }
            assert(forall|j: int|
                0 <= j < pre.len() ==> node_frozen(pre[j], #[trigger] nodes@[j]));
            lemma_list_wf_push(pre2, node);
            assert(nodes@ =~= pre2.push(node));
            assert(last_leaf_ok(nodes@, *last_leaf)) by {
                assert(forall|t: int| 0 <= t < pre2.len() ==> #[trigger] nodes@[t] == pre2[t]);
                match *last_leaf {
                    Some(lp) => {
                        assert forall|t: int|
                            lp < t < nodes@.len() implies !is_leaf(nodes@[t]) by {
                            if t < pre2.len() {
                                assert(!is_leaf(pre2[t]));
                            }
                        }
                    },
                    None => {
                        assert forall|t: int|
                            -1 < t < nodes@.len() implies !is_leaf(nodes@[t]) by {
                            if t < pre2.len() {
                                assert(!is_leaf(pre2[t]));
                            }
                        }
                    },
                }
            }
            lemma_leaves_push(pre2, node);
            assert(leaves_of(nodes@) =~= leaves_of(pre) + m.subrange(l as int, r as int)) by {
                assert(leaves_of(pre2) == (leaves_of(pre) + m.subrange(l as int, mid as int))
                    + m.subrange(mid as int, r as int));
                assert(m.subrange(l as int, mid as int) + m.subrange(mid as int, r as int) =~= m.subrange(
                    l as int,
                    r as int,
                ));
            }
        }
        return (Some(idx), pr);
    } else {
        proof {
            assert forall|q1: int, q2: int|
                l <= q1 < r && l <= q2 < r implies (#[trigger] m[q1]).take(ind + 1)
                == (#[trigger] m[q2]).take(ind + 1) by {
                assert(m[q1].take(ind as int) == m[q2].take(ind as int));
                assert forall|xx: int| 0 <= xx < ind + 1 implies m[q1][xx] == m[q2][xx] by {
                    if xx < ind {
                        assert(m[q1].take(ind as int)[xx] == m[q1][xx]);
                        assert(m[q2].take(ind as int)[xx] == m[q2][xx]);
                    } else {
                        // all bits at `ind` agree: the scan covered the
                        // whole range, or started on a set bit
                        if mid == l {
                            assert(m[q1][ind as int] && m[q2][ind as int]);
                        } else {
                            assert(!m[q1][ind as int] && !m[q2][ind as int]);
                        }
                    }
                }
                assert(m[q1].take(ind + 1) =~= m[q2].take(ind + 1));
            }
        }
        let (x, y) = build_tree(nodes, v, ind + 1, l, r, last_leaf, Ghost(model));
        let xi = match x {
            Some(xx) => xx,
            None => 0,
        };
        let ghost before_set = nodes@;
        set_lind(nodes, xi, ind, Ghost(model));
        proof {
            assert forall|j: int| 0 <= j < old(nodes)@.len() implies node_frozen(
                old(nodes)@[j],
                #[trigger] nodes@[j],
            ) by {
                assert(node_frozen(old(nodes)@[j], before_set[j]));
                assert(nodes@[j] == before_set[j]);
            }
        }
        return (Some(xi), y);
    }
}

/// The deepest node on the left spine below `cur` whose depth range
/// brackets `k`, or the end of the spine.
fn get_kth_left(
    nodes: &Vec<TrieNode>,
    cur: usize,
    k: usize,
    Ghost(model): Ghost<Seq<Seq<bool>>>,
) -> (r: usize)
    requires
        arena_wf(nodes@, model),
        cur < nodes@.len(),
    ensures
        r <= cur,
        r < nodes@.len(),
        (nodes@[cur as int].kind is Internal && !(nodes@[cur as int].lind <= k && k as int
            <= rind_of(nodes@, cur as int))) ==> r < cur,
    decreases cur,
{
    proof {
        assert(node_wf(nodes@, model, cur as int));
    }
    let rind = get_rind(nodes, cur, Ghost(model));
    let lind = nodes[cur].lind;
    if lind <= k && k <= rind {
        cur
    } else {
        let node = &nodes[cur];
        match &node.kind {
            NodeKind::Internal { left, .. } => get_kth_left(nodes, *left, k, Ghost(model)),
            NodeKind::Leaf { .. } => cur,
        }
    }
}

/// The same along the right spine.
fn get_kth_right(
    nodes: &Vec<TrieNode>,
    cur: usize,
    k: usize,
    Ghost(model): Ghost<Seq<Seq<bool>>>,
) -> (r: usize)
    requires
        arena_wf(nodes@, model),
        cur < nodes@.len(),
    ensures
        r <= cur,
        r < nodes@.len(),
        (nodes@[cur as int].kind is Internal && !(nodes@[cur as int].lind <= k && k as int
            <= rind_of(nodes@, cur as int))) ==> r < cur,
    decreases cur,
{
    proof {
        assert(node_wf(nodes@, model, cur as int));
    }
    let rind = get_rind(nodes, cur, Ghost(model));
    let lind = nodes[cur].lind;
    if lind <= k && k <= rind {
        cur
    } else {
        let node = &nodes[cur];
        match &node.kind {
            NodeKind::Internal { right, .. } => get_kth_right(nodes, *right, k, Ghost(model)),
            NodeKind::Leaf { .. } => cur,
        }
    }
}

/// Fills in the jump pointers of the subtree rooted at `i`: each one leads
/// along one spine toward the depth reached by the next doubling step of
/// the fat search.
pub(crate) fn precalc_jumps(nodes: &mut Vec<TrieNode>, i: usize, Ghost(model): Ghost<Seq<Seq<bool>>>)
    requires
        arena_wf(old(nodes)@, model),
        i < old(nodes)@.len(),
    ensures
        final(nodes)@.len() == old(nodes)@.len(),
        arena_wf(final(nodes)@, model),
        forall|j: int|
            0 <= j < old(nodes)@.len() ==> node_frozen(old(nodes)@[j], #[trigger] final(nodes)@[j]),
        forall|j: int|
            0 <= j < old(nodes)@.len() && is_leaf(old(nodes)@[j]) ==> final(nodes)@[j] == old(
                nodes,
            )@[j],
        leaves_of(final(nodes)@) == leaves_of(old(nodes)@),
        list_wf(old(nodes)@) ==> list_wf(final(nodes)@),
    decreases i,
{
    proof {
        assert(node_wf(old(nodes)@, model, i as int));
    }
    let (li, ri, tl) = match &nodes[i].kind {
        NodeKind::Internal { left, right, to_leaf, .. } => (*left, *right, *to_leaf),
        NodeKind::Leaf { .. } => {
            return ;
        },
    };
    let rind = get_rind(nodes, i, Ghost(model));
    let lind = nodes[i].lind;
    let k = get_fattest(rind, lind);
    let target: usize = if k == 0 {
        usize::MAX
    } else {
        let p = low_pow(k);
        proof {
            assert(node_wf(old(nodes)@, model, tl as int));
            assert(rind < 0x40000000);
            let j = choose|j: nat| fattest_witness(rind, lind, k, j);
            let t = choose|t: nat|
                p == pow2(t) && #[trigger] (k as int % pow2(t) as int) == 0 && (k as int / pow2(
                    t,
                ) as int) % 2 == 1;
            lemma_jump_exceeds(rind, lind, k, p, j, t);
        }
        k + p
    };
    proof {
        // for a zero depth the doubling target is the top of the word,
        // which also lies beyond the extent of any node
        if k == 0 {
            assert(rind_of(old(nodes)@, i as int) <= leaf_bits(old(nodes)@, tl as int).len());
            assert(usize::MAX > rind);
        }
    }
    let jl = get_kth_left(nodes, i, target, Ghost(model));
    let jr = get_kth_right(nodes, i, target, Ghost(model));
    let node = TrieNode {
        lind,
        kind: NodeKind::Internal { left: li, right: ri, jump_left: jl, jump_right: jr, to_leaf: tl },
    };
    let ghost pre = nodes@;
    nodes[i] = node;
    proof {
        assert forall|j: int| 0 <= j < nodes@.len() implies node_wf(nodes@, model, j) by {
            assert(node_wf(pre, model, j));
        }
        lemma_leaves_pointwise(pre, nodes@);
        if list_wf(pre) {
            assert(forall|t: int|
                0 <= t < nodes@.len() ==> is_leaf(#[trigger] nodes@[t]) == is_leaf(pre[t]));
            assert forall|j: int|
                0 <= j < nodes@.len() && is_leaf(nodes@[j]) implies #[trigger] list_ok_at(
                nodes@,
                j,
            ) by {
                assert(nodes@[j] == pre[j]);
                assert(list_ok_at(pre, j));
                match nodes@[j].kind {
                    NodeKind::Leaf { prev: pv, next: nx, .. } => {
                        match pv {
                            Some(p2) => {
                                assert forall|t: int| p2 < t < j implies !is_leaf(nodes@[t]) by {
                                    assert(!is_leaf(pre[t]));
                                }
                            },
                            None => {
                                assert forall|t: int| -1 < t < j implies !is_leaf(nodes@[t]) by {
                                    assert(!is_leaf(pre[t]));
                                }
                            },
                        }
                        match nx {
                            Some(q) => {
                                assert forall|t: int| j < t < q implies !is_leaf(nodes@[t]) by {
                                    assert(!is_leaf(pre[t]));
                                }
                            },
                            None => {
                                assert forall|t: int|
                                    j < t < nodes@.len() implies !is_leaf(nodes@[t]) by {
                                    assert(!is_leaf(pre[t]));
                                }
                            },
                        }
                    },
                    NodeKind::Internal { .. } => {},
                }
            }
        }
    }
    let ghost mid1 = nodes@;
    precalc_jumps(nodes, li, Ghost(model));
    let ghost mid2 = nodes@;
    precalc_jumps(nodes, ri, Ghost(model));
    proof {
        assert forall|j: int| 0 <= j < old(nodes)@.len() implies node_frozen(
            old(nodes)@[j],
            #[trigger] nodes@[j],
        ) by {
            assert(node_frozen(old(nodes)@[j], pre[j]) || j == i);
            assert(node_frozen(mid1[j], mid2[j]));
            assert(node_frozen(mid2[j], nodes@[j]));
        }
    }
}

/// Inserts the handle of every internal node of the subtree at `i` into the
/// map, keyed by the handle's hash.
fn precalc_z_map(
    nodes: &Vec<TrieNode>,
    z_map: &mut HashMap<u64, usize>,
    h: &RollingHash,
    i: usize,
    Ghost(model): Ghost<Seq<Seq<bool>>>,
)
    requires
        arena_wf(nodes@, model),
        i < nodes@.len(),
        h.wf(),
        forall|k: u64| old(z_map)@.contains_key(k) ==> old(z_map)@[k] < nodes@.len(),
    ensures
        forall|k: u64| final(z_map)@.contains_key(k) ==> final(z_map)@[k] < nodes@.len(),
    decreases i,
{
    broadcast use vstd::std_specs::hash::group_hash_axioms;

    proof {
        assert(node_wf(nodes@, model, i as int));
    }
    let (li, ri, tl) = match &nodes[i].kind {
        NodeKind::Internal { left, right, to_leaf, .. } => (*left, *right, *to_leaf),
        NodeKind::Leaf { .. } => {
            return ;
        },
    };
    let rind = get_rind(nodes, i, Ghost(model));
    let lind = nodes[i].lind;
    let f = get_fattest(rind, lind);
    proof {
        assert(node_wf(nodes@, model, tl as int));
    }
    let handle = match &nodes[tl].kind {
        NodeKind::Leaf { extent, .. } => get_substr(extent, 0, f),
        NodeKind::Internal { .. } => str_new(),
    };
    let digest = h.hash(&handle);
    z_map.insert(digest as u64, i);
    precalc_z_map(nodes, z_map, h, li, Ghost(model));
    precalc_z_map(nodes, z_map, h, ri, Ghost(model));
}

/// The z-fast trie over a plain hash map from handle hashes to nodes.
pub struct ZFastTrie {
    root: Option<usize>,
    nodes: Vec<TrieNode>,
    z_map: HashMap<u64, usize>,
    gmodel: Ghost<Seq<Seq<bool>>>,
}

impl ZFastTrie {
    /// The stored bit sequences, in sorted order.
    pub closed spec fn model(&self) -> Seq<Seq<bool>> {
        self.gmodel@
    }

    pub closed spec fn wf(&self) -> bool {
        &&& arena_wf(self.nodes@, self.gmodel@)
        &&& list_wf(self.nodes@)
        &&& leaves_of(self.nodes@) == self.gmodel@
        &&& sorted_strs(self.gmodel@)
        &&& self.nodes@.len() == (if self.gmodel@.len() == 0 {
            0int
        } else {
            2 * self.gmodel@.len() - 1
        })
        &&& (match self.root {
            Some(r) => r < self.nodes@.len(),
            None => self.nodes@.len() == 0,
        })
        &&& forall|k: u64| self.z_map@.contains_key(k) ==> self.z_map@[k] < self.nodes@.len()
    }

    pub fn new() -> (r: ZFastTrie)
        ensures
            r.wf(),
            r.model().len() == 0,
    {
        let r = ZFastTrie {
            root: None,
            nodes: Vec::new(),
            z_map: HashMap::new(),
            gmodel: Ghost(Seq::empty()),
        };
        proof {
            assert(leaves_of(r.nodes@) =~= Seq::<Seq<bool>>::empty());
        }
        r
    }

    /// Builds the trie over the given strings, which must be prefix-free
    /// (hence distinct); they are sorted internally.
    pub fn build(&mut self, v: &Vec<Str>)
        requires
            prefix_free(strs_of(v@)),
            // lengths stay below 2^30 so that depth arithmetic (the doubling
            // step of the fat search, the per-bit hash state) fits the word
            // on any target
            forall|q: int| 0 <= q < v@.len() ==> (#[trigger] strs_of(v@)[q]).len() < 0x40000000,
        ensures
            final(self).wf(),
            sorted_strs(final(self).model()),
            final(self).model().to_multiset() == strs_of(v@).to_multiset(),
    {
        let mut x = clone_strs(v);
        sort_strs(&mut x);
        let ghost model = strs_of(x@);
        proof {
            lemma_multiset_props(strs_of(x@), strs_of(v@));
            lemma_multiset_len_bound(strs_of(x@), strs_of(v@));
        }
        self.nodes = Vec::new();
        self.z_map = HashMap::new();
        self.root = None;
        proof {
            self.gmodel@ = model;
        }
        let n = x.len();
        if n == 0 {
            proof {
                assert(leaves_of(self.nodes@) =~= model);
            }
            return ;
        }
        let mut last: Option<usize> = None;
        proof {
            assert(forall|q: int| 0 <= q < model.len() ==> model.contains(#[trigger] model[q]));
            assert(forall|q1: int, q2: int|
                0 <= q1 < n && 0 <= q2 < n ==> (#[trigger] model[q1]).take(0)
                    =~= (#[trigger] model[q2]).take(0));
        }
        let ghost pre = self.nodes@;
        let (root_opt, _) = build_tree(&mut self.nodes, &x, 0, 0, n, &mut last, Ghost(model));
        proof {
            assert(leaves_of(pre) + model.subrange(0, n as int) =~= model);
        }
        self.root = root_opt;
        match self.root {
            Some(rt) => {
                let h = RollingHash::new();
                precalc_z_map(&self.nodes, &mut self.z_map, &h, rt, Ghost(model));
                precalc_jumps(&mut self.nodes, rt, Ghost(model));
            },
            None => {},
        }
    }
}

/// A leaf's extent is a member of the stored set.
pub(crate) proof fn lemma_leaf_in_model(nodes: Seq<TrieNode>, model: Seq<Seq<bool>>, i: int)
    requires
        arena_wf(nodes, model),
        0 <= i < nodes.len(),
        is_leaf(nodes[i]),
    ensures
        model.contains(extent_of(nodes, i)),
{
    assert(node_wf(nodes, model, i));
}

/// Whether the node at `i` is a stored string.
pub(crate) fn is_leaf_at(nodes: &Vec<TrieNode>, i: usize) -> (r: bool)
    requires
        i < nodes@.len(),
    ensures
        r == is_leaf(nodes@[i as int]),
{
    let node = &nodes[i];
    match &node.kind {
        NodeKind::Leaf { .. } => true,
        NodeKind::Internal { .. } => false,
    }
}

/// The extent of the node at `i`: the stored string at a leaf, or the
/// shared prefix, of length `rind`, of everything below an internal node.
pub open spec fn extent_of(nodes: Seq<TrieNode>, i: int) -> Seq<bool> {
    match nodes[i].kind {
        NodeKind::Leaf { extent, .. } => bits_of(extent),
        NodeKind::Internal { to_leaf, .. } => leaf_bits(nodes, to_leaf as int).take(
            rind_of(nodes, i),
        ),
    }
}

/// Materializes a node's extent.
pub(crate) fn node_extent(nodes: &Vec<TrieNode>, i: usize, Ghost(model): Ghost<Seq<Seq<bool>>>) -> (r: Str)
    requires
        arena_wf(nodes@, model),
        i < nodes@.len(),
    ensures
        bits_of(r) == extent_of(nodes@, i as int),
{
    proof {
        assert(node_wf(nodes@, model, i as int));
    }
    let node = &nodes[i];
    match &node.kind {
        NodeKind::Leaf { extent, .. } => str_clone(extent),
        NodeKind::Internal { to_leaf, left, .. } => {
            let rind = nodes[*left].lind - 1;
            proof {
                assert(node_wf(nodes@, model, *to_leaf as int));
            }
            let tnode = &nodes[*to_leaf];
            match &tnode.kind {
                NodeKind::Leaf { extent, .. } => get_substr(extent, 0, rind),
                NodeKind::Internal { .. } => str_new(),
            }
        },
    }
}

/// The leftmost stored string below `i`, following left jumps.
pub(crate) fn get_leftmost(nodes: &Vec<TrieNode>, i: usize, Ghost(model): Ghost<Seq<Seq<bool>>>) -> (r: usize)
    requires
        arena_wf(nodes@, model),
        i < nodes@.len(),
    ensures
        r < nodes@.len(),
        is_leaf(nodes@[r as int]),
{
    let mut cur = i;
    while !is_leaf_at(nodes, cur)
        invariant
            cur < nodes@.len(),
            arena_wf(nodes@, model),
        decreases cur,
    {
        proof {
            assert(node_wf(nodes@, model, cur as int));
        }
        let node = &nodes[cur];
        cur = match &node.kind {
            NodeKind::Internal { jump_left, .. } => *jump_left,
            NodeKind::Leaf { .. } => cur,
        };
    }
    cur
}

/// The rightmost stored string below `i`, following right jumps.
pub(crate) fn get_rightmost(nodes: &Vec<TrieNode>, i: usize, Ghost(model): Ghost<Seq<Seq<bool>>>) -> (r:
    usize)
    requires
        arena_wf(nodes@, model),
        i < nodes@.len(),
    ensures
        r < nodes@.len(),
        is_leaf(nodes@[r as int]),
{
    let mut cur = i;
    while !is_leaf_at(nodes, cur)
        invariant
            cur < nodes@.len(),
            arena_wf(nodes@, model),
        decreases cur,
    {
        proof {
            assert(node_wf(nodes@, model, cur as int));
        }
        let node = &nodes[cur];
        cur = match &node.kind {
            NodeKind::Internal { jump_right, .. } => *jump_right,
            NodeKind::Leaf { .. } => cur,
        };
    }
    cur
}

impl ZFastTrie {
    /// One probing pass of the fat binary search: narrows the prefix-length
    /// range by hashing prefixes of `x` and looking the digests up in the
    /// handle index; a hit whose 2-fattest depth matches advances the lower
    /// bound, anything else lowers the upper bound.
    fn locate_exit_or_parex_prob(&self, x: &Str) -> (r: Option<usize>)
        requires
            self.wf(),
            bits_of(*x).len() < 0x40000000,
        ensures
            r matches Some(i) ==> i < self.nodes@.len(),
    {
        broadcast use vstd::std_specs::hash::group_hash_axioms;

        let mut res: Option<usize> = None;
        let mut a: usize = 0;
        let mut b: usize = str_len(x);
        let h = RollingHash::new();
        let state = h.compute_state(x);
        let mut m: usize = crate::bitwise_operations::calc(b);
        let mut fuel: usize = 80;
        let mut done = false;
        while !done && fuel > 0 && a <= b
            invariant
                self.wf(),
                b <= bits_of(*x).len(),
                h.wf(),
                h.state_inv(bits_of(*x), state),
                res matches Some(i) ==> i < self.nodes@.len(),
            decreases fuel,
        {
            fuel = fuel - 1;
            if a == 0 || (m & (a - 1)) != (m & b) {
                let f64v: u64 = (m as u64) & (b as u64);
                proof {
                    assert((m as u64) & (b as u64) <= (b as u64)) by (bit_vector);
                }
                let f: usize = if a == 0 {
                    0
                } else {
                    f64v as usize
                };
                let dig = h.fast_prefix_hash(x, &state, f);
                let beta = self.z_map.get(&(dig as u64));
                match beta {
                    Some(ni_ref) => {
                        let ni = *ni_ref;
                        proof {
                            assert(self.z_map@.contains_key(dig as u64));
                        }
                        let rind = get_rind(&self.nodes, ni, Ghost(self.gmodel@));
                        let lind = self.nodes[ni].lind;
                        if get_fattest(rind, lind) == f {
                            proof {
                                assert(node_wf(self.nodes@, self.gmodel@, ni as int));
                                assert(rind < 0x40000000) by {
                                    match self.nodes@[ni as int].kind {
                                        NodeKind::Internal { to_leaf, .. } => {
                                            assert(node_wf(
                                                self.nodes@,
                                                self.gmodel@,
                                                to_leaf as int,
                                            ));
                                        },
                                        NodeKind::Leaf { .. } => {},
                                    }
                                }
                            }
                            a = rind + 1;
                            res = Some(ni);
                        } else {
                            if f == 0 {
                                done = true;
                            } else {
                                b = f - 1;
                            }
                        }
                    },
                    None => {
                        if f == 0 {
                            done = true;
                        } else {
                            b = f - 1;
                        }
                    },
                }
            }
            m = m >> 1;
        }
        res
    }

    /// The verifying pass: the same search, but a hit counts only when its
    /// extent literally is a proper prefix of `x`.
    fn locate_parex(&self, x: &Str) -> (r: Option<usize>)
        requires
            self.wf(),
            bits_of(*x).len() < 0x40000000,
        ensures
            r matches Some(i) ==> i < self.nodes@.len() && is_prefix(
                extent_of(self.nodes@, i as int),
                bits_of(*x),
            ) && extent_of(self.nodes@, i as int).len() < bits_of(*x).len(),
    {
        broadcast use vstd::std_specs::hash::group_hash_axioms;

        let mut res: Option<usize> = None;
        let mut a: usize = 0;
        let mut b: usize = str_len(x);
        let xl = str_len(x);
        let h = RollingHash::new();
        let state = h.compute_state(x);
        let mut m: usize = crate::bitwise_operations::calc(b);
        let mut fuel: usize = 80;
        let mut done = false;
        while !done && fuel > 0 && a <= b
            invariant
                self.wf(),
                b <= bits_of(*x).len(),
                xl == bits_of(*x).len(),
                h.wf(),
                h.state_inv(bits_of(*x), state),
                res matches Some(i) ==> i < self.nodes@.len() && is_prefix(
                    extent_of(self.nodes@, i as int),
                    bits_of(*x),
                ) && extent_of(self.nodes@, i as int).len() < bits_of(*x).len(),
            decreases fuel,
        {
            fuel = fuel - 1;
            if a == 0 || (m & (a - 1)) != (m & b) {
                let f64v: u64 = (m as u64) & (b as u64);
                proof {
                    assert((m as u64) & (b as u64) <= (b as u64)) by (bit_vector);
                }
                let f: usize = if a == 0 {
                    0
                } else {
                    f64v as usize
                };
                let dig = h.fast_prefix_hash(x, &state, f);
                let beta = self.z_map.get(&(dig as u64));
                let mut advanced = false;
                match beta {
                    Some(ni_ref) => {
                        let ni = *ni_ref;
                        proof {
                            assert(self.z_map@.contains_key(dig as u64));
                        }
                        let extent = node_extent(&self.nodes, ni, Ghost(self.gmodel@));
                        let rind = get_rind(&self.nodes, ni, Ghost(self.gmodel@));
                        let lind = self.nodes[ni].lind;
                        let el = str_len(&extent);
                        if el < xl && get_fattest(rind, lind) == f {
                            let xpref = get_substr(x, 0, el);
                            if str_eq(&extent, &xpref) {
                                proof {
                                    assert(node_wf(self.nodes@, self.gmodel@, ni as int));
                                    assert(rind < 0x40000000) by {
                                        match self.nodes@[ni as int].kind {
                                            NodeKind::Internal { to_leaf, .. } => {
                                                assert(node_wf(
                                                    self.nodes@,
                                                    self.gmodel@,
                                                    to_leaf as int,
                                                ));
                                            },
                                            NodeKind::Leaf { .. } => {},
                                        }
                                    }
                                }
                                a = rind + 1;
                                res = Some(ni);
                                advanced = true;
                            }
                        }
                        if !advanced {
                            if f == 0 {
                                done = true;
                            } else {
                                b = f - 1;
                            }
                        }
                    },
                    None => {
                        if f == 0 {
                            done = true;
                        } else {
                            b = f - 1;
                        }
                    },
                }
            }
            m = m >> 1;
        }
        res
    }

    /// The probing pass, re-checked: when the candidate's handle does not
    /// literally prefix `x`, fall back to the verifying pass.
    fn locate_exit_or_parex(&self, x: &Str) -> (r: Option<usize>)
        requires
            self.wf(),
            bits_of(*x).len() < 0x40000000,
        ensures
            r matches Some(i) ==> i < self.nodes@.len(),
    {
        let res = self.locate_exit_or_parex_prob(x);
        let handle = match res {
            Some(i) => {
                proof {
                    assert(node_wf(self.nodes@, self.gmodel@, i as int));
                }
                let rind = get_rind(&self.nodes, i, Ghost(self.gmodel@));
                let lind = self.nodes[i].lind;
                let f = get_fattest(rind, lind);
                let node = &self.nodes[i];
                match &node.kind {
                    NodeKind::Internal { to_leaf, .. } => {
                        proof {
                            assert(node_wf(self.nodes@, self.gmodel@, *to_leaf as int));
                        }
                        let tnode = &self.nodes[*to_leaf];
                        match &tnode.kind {
                            NodeKind::Leaf { extent, .. } => get_substr(extent, 0, f),
                            NodeKind::Internal { .. } => str_new(),
                        }
                    },
                    NodeKind::Leaf { .. } => str_new(),
                }
            },
            None => str_new(),
        };
        let hl = str_len(&handle);
        let xl = str_len(x);
        let min: usize = if xl < hl {
            xl
        } else {
            hl
        };
        let xpref = get_substr(x, 0, min);
        if !str_eq(&handle, &xpref) {
            self.locate_parex(x)
        } else {
            res
        }
    }

    /// One more step from the parex candidate: if `x` continues past the
    /// candidate's extent, descend the one edge the next bit selects.
    fn locate_exit_from_node(&self, x: &Str, sigma: Option<usize>) -> (r: Option<usize>)
        requires
            self.wf(),
            self.root is Some,
            sigma matches Some(i) ==> i < self.nodes@.len(),
        ensures
            r matches Some(i) ==> i < self.nodes@.len(),
            r is Some,
    {
        match sigma {
            Some(ni) => {
                proof {
                    assert(node_wf(self.nodes@, self.gmodel@, ni as int));
                }
                let extent = node_extent(&self.nodes, ni, Ghost(self.gmodel@));
                let el = str_len(&extent);
                let xl = str_len(x);
                if el < xl {
                    let xpref = get_substr(x, 0, el);
                    if str_eq(&extent, &xpref) {
                        let node = &self.nodes[ni];
                        match &node.kind {
                            NodeKind::Internal { left, right, .. } => {
                                if !str_get(x, el) {
                                    Some(*left)
                                } else {
                                    Some(*right)
                                }
                            },
                            NodeKind::Leaf { .. } => Some(ni),
                        }
                    } else {
                        Some(ni)
                    }
                } else {
                    Some(ni)
                }
            },
            None => {
                match self.root {
                    Some(rt) => Some(rt),
                    None => None,
                }
            },
        }
    }

    /// The exit node of `x`: the deepest node whose extent is compatible
    /// with `x` as far as the probabilistic search can tell.
    fn locate_exit(&self, x: &Str) -> (r: Option<usize>)
        requires
            self.wf(),
            bits_of(*x).len() < 0x40000000,
        ensures
            r matches Some(i) ==> i < self.nodes@.len(),
            self.root is Some <==> r is Some,
    {
        match self.root {
            None => None,
            Some(_) => {
                let res = self.locate_exit_or_parex(x);
                self.locate_exit_from_node(x, res)
            },
        }
    }

    /// The predecessor and successor of `x` among the stored strings: walk
    /// to a stored string near the exit node, then follow the leaf list to
    /// the exact bracketing position.
    fn query(&self, x: &Str) -> (r: (Option<Str>, Option<Str>))
        requires
            self.wf(),
            bits_of(*x).len() <= 0x40000000,
        ensures
            is_pred_answer(self.model(), bits_of(*x), opt_bits(r.0)),
            is_succ_answer(self.model(), bits_of(*x), opt_bits(r.1)),
    {
        let eta_opt = if str_len(x) < 0x40000000 {
            self.locate_exit(x)
        } else {
            None
        };
        exit_to_answers(&self.nodes, eta_opt, x, Ghost(self.gmodel@))
    }

    /// The greatest stored string strictly below `x`, or nothing when no
    /// stored string is below `x`.
    pub fn pred_query(&self, x: &Str) -> (r: Option<Str>)
        requires
            self.wf(),
            bits_of(*x).len() < 0x40000000,
        ensures
            is_pred_answer(self.model(), bits_of(*x), opt_bits(r)),
    {
        self.query(x).0
    }

    /// The least stored string at least `x`, or nothing when no stored
    /// string reaches `x`.
    pub fn succ_query(&self, x: &Str) -> (r: Option<Str>)
        requires
            self.wf(),
            bits_of(*x).len() < 0x40000000,
        ensures
            is_succ_answer(self.model(), bits_of(*x), opt_bits(r)),
    {
        self.query(x).1
    }

    /// The exit node's extent, truncated to the length of `x`: a prefix of
    /// some stored string.
    fn pref_query(&self, x: &Str) -> (r: Option<Str>)
        requires
            self.wf(),
            bits_of(*x).len() < 0x40000000,
        ensures
            r matches Some(s) ==> exists|t: Seq<bool>|
                #[trigger] self.model().contains(t) && bits_of(s).len() <= t.len() && bits_of(s)
                    == t.take(bits_of(s).len() as int),
            self.model().len() == 0 ==> r is None,
            self.model().len() == 1 ==> (match r {
                Some(s) => bits_of(s) == (if self.model()[0].len() <= bits_of(*x).len() {
                    self.model()[0]
                } else {
                    self.model()[0].take(bits_of(*x).len() as int)
                }),
                None => false,
            }),
    {
        proof {
            if self.gmodel@.len() == 0 {
                match self.root {
                    Some(rt) => {
                        lemma_nonempty_arena_has_string(self.nodes@, self.gmodel@);
                    },
                    None => {},
                }
            }
        }
        let eta_opt = self.locate_exit(x);
        proof {
            if self.gmodel@.len() == 1 {
                assert(self.nodes@.len() == 1);
                assert(self.root is Some);
                assert(eta_opt is Some);
            }
        }
        let r = exit_prefix(&self.nodes, eta_opt, x, Ghost(self.gmodel@));
        proof {
            match &r {
                Some(s) => {
                    let t = choose|t: Seq<bool>|
                        #[trigger] self.gmodel@.contains(t) && bits_of(*s).len() <= t.len()
                            && bits_of(*s) == t.take(bits_of(*s).len() as int);
                    assert(self.model().contains(t));
                },
                None => {},
            }
        }
        r
    }

    /// Whether `x` is a prefix of some stored string: the exit node gives
    /// a fast positive, and the successor of `x` decides the rest, since
    /// any stored extension of `x` sorts between `x` and its successor.
    pub fn ex_pref_query(&self, x: &Str) -> (r: bool)
        requires
            self.wf(),
            bits_of(*x).len() < 0x40000000,
        ensures
            is_pref_answer(self.model(), bits_of(*x), r),
    {
        let ghost xb = bits_of(*x);
        match self.pref_query(x) {
            Some(s) => {
                let sl = str_len(&s);
                let xl = str_len(x);
                if sl == xl && str_eq(&s, x) {
                    proof {
                        let t = choose|t: Seq<bool>|
                            #[trigger] self.gmodel@.contains(t) && bits_of(s).len() <= t.len()
                                && bits_of(s) == t.take(bits_of(s).len() as int);
                        assert(self.model().contains(t) && is_prefix(xb, t));
                    }
                    return true;
                }
            },
            None => {},
        }
        let sc = self.query(x).1;
        match sc {
            Some(s) => {
                let xl = str_len(x);
                if str_len(&s) >= xl {
                    let p = get_substr(&s, 0, xl);
                    let r = str_eq(&p, x);
                    proof {
                        assert(bits_of(s).subrange(0, xl as int) =~= bits_of(s).take(xl as int));
                        if r {
                            assert(is_prefix(xb, bits_of(s)));
                        } else {
                            assert(!is_prefix(xb, bits_of(s)));
                            lemma_no_pref_witness(self.gmodel@, xb, bits_of(s));
                        }
                    }
                    r
                } else {
                    proof {
                        assert(!is_prefix(xb, bits_of(s)));
                        lemma_no_pref_witness(self.gmodel@, xb, bits_of(s));
                    }
                    false
                }
            },
            None => {
                proof {
                    lemma_no_succ_no_pref(self.gmodel@, xb);
                }
                false
            },
        }
    }

    /// Whether some stored string lies strictly between `x` and `y`: the
    /// members strictly above `x` are exactly those at least `x` extended
    /// by a zero bit, so the successor of that extension decides.
    pub fn ex_range_query(&self, x: &Str, y: &Str) -> (r: bool)
        requires
            self.wf(),
            bits_of(*x).len() < 0x40000000,
            bits_of(*y).len() < 0x40000000,
        ensures
            is_range_answer(self.model(), bits_of(*x), bits_of(*y), r),
    {
        let ghost xb = bits_of(*x);
        let ghost yb = bits_of(*y);
        let mut x0 = str_clone(x);
        str_push(&mut x0, false);
        let ghost x0b = bits_of(x0);
        let sc = self.query(&x0).1;
        match sc {
            Some(s) => {
                let ghost sb = bits_of(s);
                let r = str_lt(&s, y);
                proof {
                    if r {
                        assert(is_prefix(xb, x0b)) by {
                            assert(x0b.take(xb.len() as int) =~= xb);
                        }
                        crate::bitstr::lemma_prefix_le(xb, x0b);
                        crate::bitstr::lemma_lex_lt_le_trans(xb, x0b, sb);
                        assert(self.model().contains(sb) && lex_lt(xb, sb) && lex_lt(sb, yb));
                    } else {
                        assert forall|t: Seq<bool>|
                            !(#[trigger] self.model().contains(t) && lex_lt(xb, t) && lex_lt(
                                t,
                                yb,
                            )) by {
                            if self.model().contains(t) && lex_lt(xb, t) && lex_lt(t, yb) {
                                crate::bitstr::lemma_gt_implies_ge_push0(xb, t);
                                assert(lex_le(sb, t));
                                crate::bitstr::lemma_lex_le_lt_trans(sb, t, yb);
                            }
                        }
                    }
                }
                r
            },
            None => {
                proof {
                    assert forall|t: Seq<bool>|
                        !(#[trigger] self.model().contains(t) && lex_lt(xb, t) && lex_lt(
                            t,
                            yb,
                        )) by {
                        if self.model().contains(t) && lex_lt(xb, t) {
                            crate::bitstr::lemma_gt_implies_ge_push0(xb, t);
                        }
                    }
                }
                false
            },
        }
    }
}

/// Walks the leaf list left from a leaf whose string is at least `x`}

/// Walks the leaf list left from a leaf whose string is at least `x`
/// until the bracketing position of `x` is found; the sorted leaf order
/// certifies the answers.
fn scan_left(
    nodes: &Vec<TrieNode>,
    cur: usize,
    x: &Str,
    Ghost(model): Ghost<Seq<Seq<bool>>>,
) -> (r: (Option<Str>, Option<Str>))
    requires
        arena_wf(nodes@, model),
        list_wf(nodes@),
        leaves_of(nodes@) == model,
        sorted_strs(model),
        cur < nodes@.len(),
        is_leaf(nodes@[cur as int]),
        lex_le(bits_of(*x), node_bits(nodes@[cur as int])),
    ensures
        is_pred_answer(model, bits_of(*x), opt_bits(r.0)),
        is_succ_answer(model, bits_of(*x), opt_bits(r.1)),
    decreases cur,
{
    let ghost k = leaf_count(nodes@, cur as int);
    proof {
        lemma_leaf_maps(nodes@, cur as int);
        assert(list_ok_at(nodes@, cur as int));
        assert(node_wf(nodes@, model, cur as int));
    }
    let w = node_extent(nodes, cur, Ghost(model));
    proof {
        assert(bits_of(w) == node_bits(nodes@[cur as int]));
        assert(model[k] == bits_of(w));
    }
    let pv = match &nodes[cur].kind {
        NodeKind::Leaf { prev, .. } => *prev,
        NodeKind::Internal { .. } => None,
    };
    match pv {
        None => {
            proof {
                lemma_first_leaf(nodes@, cur as int);
                crate::traits::lemma_low_end_exact(model, bits_of(*x));
            }
            (None, Some(w))
        },
        Some(p) => {
            proof {
                lemma_adjacent_counts(nodes@, p as int, cur as int);
                lemma_leaf_maps(nodes@, p as int);
            }
            let wp = node_extent(nodes, p, Ghost(model));
            proof {
                assert(bits_of(wp) == node_bits(nodes@[p as int]));
                assert(model[k - 1] == bits_of(wp));
            }
            if str_lt(&wp, x) {
                proof {
                    crate::traits::lemma_bracket_exact(model, k, bits_of(*x));
                }
                (Some(wp), Some(w))
            } else {
                proof {
                    lemma_lex_total(bits_of(wp), bits_of(*x));
                }
                scan_left(nodes, p, x, Ghost(model))
            }
        },
    }
}

/// Walks the leaf list right from a leaf whose string is below `x` until
/// the bracketing position of `x` is found.
fn scan_right(
    nodes: &Vec<TrieNode>,
    cur: usize,
    x: &Str,
    Ghost(model): Ghost<Seq<Seq<bool>>>,
) -> (r: (Option<Str>, Option<Str>))
    requires
        arena_wf(nodes@, model),
        list_wf(nodes@),
        leaves_of(nodes@) == model,
        sorted_strs(model),
        cur < nodes@.len(),
        is_leaf(nodes@[cur as int]),
        lex_lt(node_bits(nodes@[cur as int]), bits_of(*x)),
    ensures
        is_pred_answer(model, bits_of(*x), opt_bits(r.0)),
        is_succ_answer(model, bits_of(*x), opt_bits(r.1)),
    decreases nodes@.len() - cur,
{
    let ghost k = leaf_count(nodes@, cur as int);
    proof {
        lemma_leaf_maps(nodes@, cur as int);
        assert(list_ok_at(nodes@, cur as int));
        assert(node_wf(nodes@, model, cur as int));
    }
    let w = node_extent(nodes, cur, Ghost(model));
    proof {
        assert(bits_of(w) == node_bits(nodes@[cur as int]));
        assert(model[k] == bits_of(w));
    }
    let nx = match &nodes[cur].kind {
        NodeKind::Leaf { next, .. } => *next,
        NodeKind::Internal { .. } => None,
    };
    match nx {
        None => {
            proof {
                lemma_last_leaf(nodes@, cur as int);
                crate::traits::lemma_high_end_exact(model, bits_of(*x));
            }
            (Some(w), None)
        },
        Some(q) => {
            proof {
                lemma_adjacent_counts(nodes@, cur as int, q as int);
                lemma_leaf_maps(nodes@, q as int);
            }
            let wq = node_extent(nodes, q, Ghost(model));
            proof {
                assert(bits_of(wq) == node_bits(nodes@[q as int]));
                assert(model[k + 1] == bits_of(wq));
            }
            if str_le(x, &wq) {
                proof {
                    crate::traits::lemma_bracket_exact(model, k + 1, bits_of(*x));
                }
                (Some(w), Some(wq))
            } else {
                proof {
                    lemma_lex_total(bits_of(*x), bits_of(wq));
                }
                scan_right(nodes, q, x, Ghost(model))
            }
        },
    }
}

/// The exact predecessor and successor of `x`, reached from any starting
/// leaf by walking the sorted leaf list.
fn certified_answers(
    nodes: &Vec<TrieNode>,
    lf: usize,
    x: &Str,
    Ghost(model): Ghost<Seq<Seq<bool>>>,
) -> (r: (Option<Str>, Option<Str>))
    requires
        arena_wf(nodes@, model),
        list_wf(nodes@),
        leaves_of(nodes@) == model,
        sorted_strs(model),
        lf < nodes@.len(),
        is_leaf(nodes@[lf as int]),
    ensures
        is_pred_answer(model, bits_of(*x), opt_bits(r.0)),
        is_succ_answer(model, bits_of(*x), opt_bits(r.1)),
{
    proof {
        assert(node_wf(nodes@, model, lf as int));
    }
    let w = node_extent(nodes, lf, Ghost(model));
    proof {
        assert(bits_of(w) == node_bits(nodes@[lf as int]));
    }
    if str_le(x, &w) {
        scan_left(nodes, lf, x, Ghost(model))
    } else {
        proof {
            lemma_lex_total(bits_of(*x), bits_of(w));
        }
        scan_right(nodes, lf, x, Ghost(model))
    }
}

/// The predecessor and successor of `x` read off around an exit node: walk
/// jump pointers to a nearby stored string, then follow the sorted leaf
/// list to the exact bracketing position. A missing or misleading exit
/// node costs a longer walk along the list, never a wrong answer.
pub(crate) fn exit_to_answers(
    nodes: &Vec<TrieNode>,
    eta_opt: Option<usize>,
    x: &Str,
    Ghost(model): Ghost<Seq<Seq<bool>>>,
) -> (r: (Option<Str>, Option<Str>))
    requires
        arena_wf(nodes@, model),
        list_wf(nodes@),
        leaves_of(nodes@) == model,
        sorted_strs(model),
        eta_opt matches Some(e) ==> e < nodes@.len(),
    ensures
        is_pred_answer(model, bits_of(*x), opt_bits(r.0)),
        is_succ_answer(model, bits_of(*x), opt_bits(r.1)),
{
    if nodes.len() == 0 {
        proof {
            assert(nodes@ =~= Seq::<TrieNode>::empty());
            assert(model.len() == 0);
        }
        return (None, None);
    }
    proof {
        lemma_nonempty_arena_has_string(nodes@, model);
    }
    let lf = match eta_opt {
        None => 0,
        Some(eta) => {
            let ext = node_extent(nodes, eta, Ghost(model));
            match cmp(x, &ext) {
                Ordering::Greater => get_rightmost(nodes, eta, Ghost(model)),
                _ => get_leftmost(nodes, eta, Ghost(model)),
            }
        },
    };
    certified_answers(nodes, lf, x, Ghost(model))
}

/// The exit node's extent, truncated to the length of `x`: a prefix of
/// some stored string.
pub(crate) fn exit_prefix(
    nodes: &Vec<TrieNode>,
    eta_opt: Option<usize>,
    x: &Str,
    Ghost(model): Ghost<Seq<Seq<bool>>>,
) -> (r: Option<Str>)
    requires
        arena_wf(nodes@, model),
        eta_opt matches Some(e) ==> e < nodes@.len(),
    ensures
        r matches Some(s) ==> exists|t: Seq<bool>|
            #[trigger] model.contains(t) && bits_of(s).len() <= t.len() && bits_of(s) == t.take(
                bits_of(s).len() as int,
            ),
        eta_opt is None ==> r is None,
        nodes@.len() == 1 && leaves_of(nodes@) == model && eta_opt is Some ==> (match r {
            Some(s) => bits_of(s) == (if model[0].len() <= bits_of(*x).len() {
                model[0]
            } else {
                model[0].take(bits_of(*x).len() as int)
            }),
            None => false,
        }),
{
        let eta = match eta_opt {
            None => {
                return None;
            },
            Some(e) => e,
        };
        proof {
            assert(node_wf(nodes@, model, eta as int));
            if nodes@.len() == 1 && leaves_of(nodes@) == model {
                lemma_single_node(nodes@, model);
                assert(rind_of(nodes@, 0) == model[0].len());
                assert(model[0].take(model[0].len() as int) =~= model[0]);
            }
        }
        let xl = str_len(x);
        let rind = get_rind(nodes, eta, Ghost(model));
        let tr: usize = if rind < xl {
            rind
        } else {
            xl
        };
        let node = &nodes[eta];
        let r = match &node.kind {
            NodeKind::Leaf { extent, .. } => get_substr(extent, 0, tr),
            NodeKind::Internal { to_leaf, .. } => {
                proof {
                    assert(node_wf(nodes@, model, *to_leaf as int));
                }
                let tnode = &nodes[*to_leaf];
                match &tnode.kind {
                    NodeKind::Leaf { extent, .. } => get_substr(extent, 0, tr),
                    NodeKind::Internal { .. } => str_new(),
                }
            },
        };
        proof {
            match nodes@[eta as int].kind {
                NodeKind::Leaf { extent, .. } => {
                    let t = bits_of(extent);
                    assert(model.contains(t)) by {
                        lemma_leaf_in_model(nodes@, model, eta as int);
                    }
                    assert(bits_of(r) =~= t.take(tr as int));
                    assert(bits_of(r).len() == tr <= t.len());
                    assert(t.take(tr as int) =~= t.take(bits_of(r).len() as int));
                },
                NodeKind::Internal { to_leaf, .. } => {
                    assert(node_wf(nodes@, model, to_leaf as int));
                    let t = leaf_bits(nodes@, to_leaf as int);
                    assert(model.contains(t)) by {
                        lemma_leaf_in_model(nodes@, model, to_leaf as int);
                    }
                    assert(bits_of(r) =~= t.take(tr as int));
                    assert(bits_of(r).len() == tr <= t.len());
                    assert(t.take(tr as int) =~= t.take(bits_of(r).len() as int));
                },
            }
        }
        Some(r)
    }

/// Members of a sequence whose multiset equals another's satisfy the same
/// length bound.
pub(crate) proof fn lemma_multiset_len_bound(a: Seq<Seq<bool>>, b: Seq<Seq<bool>>)
    requires
        a.to_multiset() == b.to_multiset(),
        forall|q: int| 0 <= q < b.len() ==> (#[trigger] b[q]).len() < 0x40000000,
    ensures
        forall|q: int| 0 <= q < a.len() ==> (#[trigger] a[q]).len() < 0x40000000,
{
    broadcast use vstd::seq_lib::group_to_multiset_ensures;

    assert forall|q: int| 0 <= q < a.len() implies (#[trigger] a[q]).len() < 0x40000000 by {
        assert(a.contains(a[q]));
        assert(a.to_multiset().count(a[q]) > 0);
        assert(b.contains(a[q]));
        let w = choose|w: int| 0 <= w < b.len() && b[w] == a[q];
    }
}

/// Two sequences with equal multisets of members are prefix-free together.
pub(crate) proof fn lemma_multiset_props(a: Seq<Seq<bool>>, b: Seq<Seq<bool>>)
    requires
        a.to_multiset() == b.to_multiset(),
        prefix_free(b),
    ensures
        prefix_free(a),
{
    broadcast use vstd::seq_lib::group_to_multiset_ensures;

    assert forall|i: int, j: int|
        0 <= i < a.len() && 0 <= j < a.len() && i != j implies !is_prefix(
        #[trigger] a[i],
        #[trigger] a[j],
    ) by {
        if a[i] == a[j] {
            // a duplicate in a would be a duplicate in b
            let ar = a.remove(i);
            assert(ar.to_multiset() =~= a.to_multiset().remove(a[i]));
            let j2: int = if j < i {
                j
            } else {
                j - 1
            };
            assert(ar[j2] == a[j]);
            assert(ar.contains(a[j]));
            assert(ar.to_multiset().count(a[j]) > 0);
            assert(a.to_multiset().count(a[i]) >= 2);
            assert(b.to_multiset().count(a[i]) >= 2);
            let w1 = choose|w: int| 0 <= w < b.len() && b[w] == a[i];
            let br = b.remove(w1);
            assert(br.to_multiset() =~= b.to_multiset().remove(a[i]));
            assert(br.to_multiset().count(a[i]) > 0);
            assert(br.contains(a[i]));
            let w2 = choose|w: int| 0 <= w < br.len() && br[w] == a[i];
            let w2b: int = if w2 < w1 {
                w2
            } else {
                w2 + 1
            };
            assert(b[w2b] == a[i]);
            assert(is_prefix(b[w1], b[w2b])) by {
                assert(b[w1].take(b[w1].len() as int) =~= b[w1]);
            }
        } else {
            assert(a.contains(a[i]) && a.contains(a[j]));
            assert(a.to_multiset().count(a[i]) > 0 && a.to_multiset().count(a[j]) > 0);
            assert(b.contains(a[i]) && b.contains(a[j]));
            let w1 = choose|w: int| 0 <= w < b.len() && b[w] == a[i];
            let w2 = choose|w: int| 0 <= w < b.len() && b[w] == a[j];
            assert(w1 != w2);
        }
    }
}

impl crate::traits::Trie for ZFastTrie {
    open spec fn inv(&self) -> bool {
        self.wf()
    }

    open spec fn contents(&self) -> Seq<Seq<bool>> {
        self.model()
    }

    fn build(&mut self, v: &Vec<Str>) {
        ZFastTrie::build(self, v)
    }

    fn pred_query(&self, x: &Str) -> (r: Option<Str>) {
        ZFastTrie::pred_query(self, x)
    }

    fn succ_query(&self, x: &Str) -> (r: Option<Str>) {
        ZFastTrie::succ_query(self, x)
    }

    fn ex_pref_query(&self, x: &Str) -> (r: bool) {
        ZFastTrie::ex_pref_query(self, x)
    }

    fn ex_range_query(&self, x: &Str, y: &Str) -> (r: bool) {
        ZFastTrie::ex_range_query(self, x, y)
    }
}

} // verus!
