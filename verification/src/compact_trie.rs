//! A plain compacted binary trie, queried by recursive descent. Each node
//! carries a compressed edge label; the branch bit of each child is
//! implicit in its side. The queries thread the string built so far and a
//! flag saying whether it has already branched off below (for the
//! predecessor) or above (for the successor) the query point.

use vstd::prelude::*;
use crate::bitstr::{
    Str, bits_of, str_new, str_len, str_get, str_eq, str_push, str_clone, get_substr, strs_of,
    sorted_strs, clone_strs, sort_strs, lex_lt, lex_le, is_prefix, lemma_lex_total,
    lemma_lex_prefix, lemma_lex_diverge, lemma_lex_lt_le_trans,
};
use crate::bitstr::{
    lemma_prefix_refl, lemma_prefix_trans, lemma_prefix_extend, lemma_prefix_same_len_eq,
    lemma_prefix_le, lemma_branch_lt, lemma_concat_contains,
};
use crate::traits::{opt_bits, is_pred_answer, is_succ_answer, is_pref_answer, is_range_answer};
use crate::z_fast_trie::{prefix_free, lemma_multiset_props};

verus! {

/// One node: a compressed edge label and either two children or none.
struct TrieNode {
    s: Str,
    left: Option<Box<TrieNode>>,
    right: Option<Box<TrieNode>>,
}

/// The subtree rooted here is sound for the given path prefix: a leaf's
/// full string is a member of the model, and children continue the path
/// with their implicit branch bit.
spec fn wf_at(node: TrieNode, prefix: Seq<bool>, model: Seq<Seq<bool>>) -> bool
    decreases node,
{
    match (node.left, node.right) {
        (Option::None, Option::None) => model.contains(prefix + bits_of(node.s)),
        (Option::Some(l), Option::Some(r)) => {
            &&& wf_at(*l, prefix + bits_of(node.s) + seq![false], model)
            &&& wf_at(*r, prefix + bits_of(node.s) + seq![true], model)
        },
        _ => false,
    }
}

/// The strings stored in the subtree rooted here, under the given path
/// prefix, in left-to-right (sorted) order.
spec fn strs_at(node: TrieNode, prefix: Seq<bool>) -> Seq<Seq<bool>>
    decreases node,
{
    match (node.left, node.right) {
        (Option::Some(l), Option::Some(r)) => strs_at(*l, prefix + bits_of(node.s) + seq![false])
            + strs_at(*r, prefix + bits_of(node.s) + seq![true]),
        _ => seq![prefix + bits_of(node.s)],
    }
}

/// A subtree stores at least one string.
proof fn lemma_strs_at_nonempty(node: TrieNode, prefix: Seq<bool>)
    ensures
        strs_at(node, prefix).len() >= 1,
    decreases node,
{
    match (node.left, node.right) {
        (Option::Some(l), Option::Some(r)) => {
            lemma_strs_at_nonempty(*l, prefix + bits_of(node.s) + seq![false]);
        },
        _ => {},
    }
}

/// Every string of a subtree extends the subtree's own path.
proof fn lemma_strs_at_prefixed(node: TrieNode, prefix: Seq<bool>)
    ensures
        forall|t: Seq<bool>|
            #[trigger] strs_at(node, prefix).contains(t) ==> is_prefix(
                prefix + bits_of(node.s),
                t,
            ),
    decreases node,
{
    let q = prefix + bits_of(node.s);
    match (node.left, node.right) {
        (Option::Some(l), Option::Some(r)) => {
            let ql = q + seq![false];
            let qr = q + seq![true];
            lemma_strs_at_prefixed(*l, ql);
            lemma_strs_at_prefixed(*r, qr);
            assert forall|t: Seq<bool>|
                #[trigger] strs_at(node, prefix).contains(t) implies is_prefix(q, t) by {
                lemma_concat_contains(strs_at(*l, ql), strs_at(*r, qr), t);
                if strs_at(*l, ql).contains(t) {
                    lemma_prefix_extend(q, seq![false]);
                    lemma_prefix_extend(ql, bits_of(l.s));
                    lemma_prefix_trans(q, ql, ql + bits_of(l.s));
                    lemma_prefix_trans(q, ql + bits_of(l.s), t);
                } else {
                    lemma_prefix_extend(q, seq![true]);
                    lemma_prefix_extend(qr, bits_of(r.s));
                    lemma_prefix_trans(q, qr, qr + bits_of(r.s));
                    lemma_prefix_trans(q, qr + bits_of(r.s), t);
                }
            }
        },
        _ => {
            assert forall|t: Seq<bool>|
                #[trigger] strs_at(node, prefix).contains(t) implies is_prefix(q, t) by {
                assert(t == q);
                lemma_prefix_refl(q);
            }
        },
    }
}

/// `c` has already branched off strictly below `x`: they agree up to a
/// position where `c` goes to 0 and `x` to 1.
pub open spec fn diverged_below(c: Seq<bool>, x: Seq<bool>) -> bool {
    exists|d: int|
        0 <= d < c.len() && d < x.len() && #[trigger] c.take(d) == x.take(d) && !c[d] && x[d]
}

/// `c` sits at or above `x`: it extends `x`, or branches off with a 1
/// where `x` has a 0.
pub open spec fn diverged_above(c: Seq<bool>, x: Seq<bool>) -> bool {
    is_prefix(x, c) || exists|d: int|
        0 <= d < c.len() && d < x.len() && #[trigger] c.take(d) == x.take(d) && c[d] && !x[d]
}

/// Every extension of a string branched off below `x` is below `x`.
proof fn lemma_diverged_lt(c: Seq<bool>, x: Seq<bool>, w: Seq<bool>)
    requires
        diverged_below(c, x),
        is_prefix(c, w),
    ensures
        lex_lt(w, x),
{
    let d = choose|d: int|
        0 <= d < c.len() && d < x.len() && #[trigger] c.take(d) == x.take(d) && !c[d] && x[d];
    assert forall|j: int| 0 <= j < d implies w[j] == x[j] by {
        assert(w.take(c.len() as int)[j] == w[j]);
        assert(c.take(d)[j] == c[j]);
        assert(x.take(d)[j] == x[j]);
    }
    assert(w[d] == c[d]) by {
        assert(w.take(c.len() as int)[d] == w[d]);
    }
    lemma_lex_diverge(w, x, d);
}

/// Every extension of a string at or above `x` is at least `x`.
proof fn lemma_diverged_ge(c: Seq<bool>, x: Seq<bool>, w: Seq<bool>)
    requires
        diverged_above(c, x),
        is_prefix(c, w),
    ensures
        lex_le(x, w),
{
    if is_prefix(x, c) {
        assert(is_prefix(x, w)) by {
            assert forall|j: int| 0 <= j < x.len() implies w.take(x.len() as int)[j] == x[j] by {
                assert(c.take(x.len() as int)[j] == c[j]);
                assert(w.take(c.len() as int)[j] == w[j]);
                assert(x[j] == c[j]);
            }
            assert(w.take(x.len() as int) =~= x);
        }
        assert(forall|j: int| 0 <= j < x.len() ==> x[j] == #[trigger] w.take(x.len() as int)[j]);
        assert(forall|j: int| 0 <= j < x.len() ==> x[j] == w[j]);
        lemma_lex_prefix(x, w);
    } else {
        let d = choose|d: int|
            0 <= d < c.len() && d < x.len() && #[trigger] c.take(d) == x.take(d) && c[d] && !x[d];
        assert forall|j: int| 0 <= j < d implies x[j] == w[j] by {
            assert(w.take(c.len() as int)[j] == w[j]);
            assert(c.take(d)[j] == c[j]);
            assert(x.take(d)[j] == x[j]);
        }
        assert(w[d] == c[d]) by {
            assert(w.take(c.len() as int)[d] == w[d]);
        }
        lemma_lex_diverge(x, w, d);
        lemma_lex_total(x, w);
    }
}

/// `c` is what has been read of `x` so far.
pub open spec fn tracks_prefix(c: Seq<bool>, x: Seq<bool>) -> bool {
    c.len() <= x.len() && c == x.take(c.len() as int)
}

/// Extends the built string by one bit while heading for the predecessor:
/// refuses when the subtree can no longer hold a string below `x`.
fn upd_curr_pred(x: &Str, curr: &mut Str, found: &mut bool, c: bool) -> (r: bool)
    requires
        *old(found) ==> diverged_below(bits_of(*old(curr)), bits_of(*x)),
        !*old(found) ==> tracks_prefix(bits_of(*old(curr)), bits_of(*x)),
    ensures
        r ==> bits_of(*final(curr)) == bits_of(*old(curr)).push(c),
        r && *final(found) ==> diverged_below(bits_of(*final(curr)), bits_of(*x)),
        r && !*final(found) ==> tracks_prefix(bits_of(*final(curr)), bits_of(*x)),
        *old(found) ==> r && *final(found),
        !*old(found) && bits_of(*old(curr)).len() < bits_of(*x).len() && c == bits_of(
            *x,
        )[bits_of(*old(curr)).len() as int] ==> r,
        !r ==> !*old(found) && *final(found) == *old(found) && bits_of(*final(curr)) == bits_of(
            *old(curr),
        ),
        !r ==> bits_of(*old(curr)).len() == bits_of(*x).len() || (c && !bits_of(*x)[bits_of(
            *old(curr),
        ).len() as int]),
{
    let ghost c0 = bits_of(*curr);
    let ghost xb = bits_of(*x);
    if !*found {
        if str_len(curr) == str_len(x) {
            return false;
        }
        let bit = str_get(x, str_len(curr));
        if c != bit {
            if c {
                return false;
            } else {
                *found = true;
                proof {
                    let d = c0.len() as int;
                    assert(c0.push(c).take(d) =~= c0);
                    assert(c0 == xb.take(d));
                    assert(diverged_below(c0.push(c), xb)) by {
                        assert(c0.push(c).take(d) == xb.take(d) && !c0.push(c)[d] && xb[d]);
                    }
                }
            }
        } else {
            proof {
                assert(c0.push(c) =~= xb.take(c0.len() as int + 1));
            }
        }
    } else {
        proof {
            let d = choose|d: int|
                0 <= d < c0.len() && d < xb.len() && #[trigger] c0.take(d) == xb.take(d) && !c0[d]
                    && xb[d];
            assert(c0.push(c).take(d) =~= c0.take(d));
            assert(diverged_below(c0.push(c), xb)) by {
                assert(c0.push(c).take(d) == xb.take(d) && !c0.push(c)[d] && xb[d]);
            }
        }
    }
    str_push(curr, c);
    true
}

/// Extends the built string by one bit while heading for the successor:
/// refuses when the subtree can no longer hold a string at least `x`.
fn upd_curr_succ(x: &Str, curr: &mut Str, found: &mut bool, c: bool) -> (r: bool)
    requires
        *old(found) ==> diverged_above(bits_of(*old(curr)), bits_of(*x)),
        !*old(found) ==> tracks_prefix(bits_of(*old(curr)), bits_of(*x)) && bits_of(
            *old(curr),
        ).len() < bits_of(*x).len(),
    ensures
        r ==> bits_of(*final(curr)) == bits_of(*old(curr)).push(c),
        r && *final(found) ==> diverged_above(bits_of(*final(curr)), bits_of(*x)),
        r && !*final(found) ==> tracks_prefix(bits_of(*final(curr)), bits_of(*x)) && bits_of(
            *final(curr),
        ).len() < bits_of(*x).len(),
        *old(found) ==> r && *final(found),
        !*old(found) && c == bits_of(*x)[bits_of(*old(curr)).len() as int] ==> r,
        !r ==> !*old(found) && *final(found) == *old(found) && bits_of(*final(curr)) == bits_of(
            *old(curr),
        ),
        !r ==> !c && bits_of(*x)[bits_of(*old(curr)).len() as int],
{
    let ghost c0 = bits_of(*curr);
    let ghost xb = bits_of(*x);
    if !*found {
        let bit = str_get(x, str_len(curr));
        if c != bit {
            if !c {
                return false;
            } else {
                *found = true;
                proof {
                    let d = c0.len() as int;
                    assert(c0.push(c).take(d) =~= c0);
                    assert(c0 == xb.take(d));
                    assert(diverged_above(c0.push(c), xb)) by {
                        assert(c0.push(c).take(d) == xb.take(d) && c0.push(c)[d] && !xb[d]);
                    }
                }
            }
        } else {
            proof {
                assert(c0.push(c) =~= xb.take(c0.len() as int + 1));
            }
        }
    } else {
        proof {
            if is_prefix(xb, c0) {
                assert(is_prefix(xb, c0.push(c))) by {
                    assert(c0.push(c).take(xb.len() as int) =~= c0.take(xb.len() as int));
                }
            } else {
                let d = choose|d: int|
                    0 <= d < c0.len() && d < xb.len() && #[trigger] c0.take(d) == xb.take(d)
                        && c0[d] && !xb[d];
                assert(c0.push(c).take(d) =~= c0.take(d));
                assert(diverged_above(c0.push(c), xb)) by {
                    assert(c0.push(c).take(d) == xb.take(d) && c0.push(c)[d] && !xb[d]);
                }
            }
        }
    }
    str_push(curr, c);
    proof {
        let c1 = bits_of(*curr);
        if !*found && c1.len() == xb.len() {
            assert(is_prefix(xb, c1)) by {
                assert(c1 =~= xb);
                assert(c1.take(xb.len() as int) =~= c1);
            }
        }
    }
    if str_len(curr) == str_len(x) {
        *found = true;
    }
    true
}

impl TrieNode {
    /// Builds the subtree over `v[l..r]`, whose strings share their first
    /// `ind` bits; the shared bits past `ind` are compressed into edge
    /// labels.
    fn build(v: &Vec<Str>, ind: usize, l: usize, r: usize, Ghost(model): Ghost<Seq<Seq<bool>>>)
        -> (res: Option<Box<TrieNode>>)
        requires
            l <= r <= v@.len(),
            sorted_strs(strs_of(v@)),
            prefix_free(strs_of(v@)),
            forall|q: int| l <= q < r ==> model.contains(#[trigger] strs_of(v@)[q]),
            forall|q: int|
                l <= q < r ==> ind <= (#[trigger] strs_of(v@)[q]).len() < 0x40000000,
            forall|q1: int, q2: int|
                l <= q1 < r && l <= q2 < r ==> (#[trigger] strs_of(v@)[q1]).take(ind as int)
                    == (#[trigger] strs_of(v@)[q2]).take(ind as int),
        ensures
            l < r ==> (match res {
                Some(node) => wf_at(*node, strs_of(v@)[l as int].take(ind as int), model)
                    && strs_at(*node, strs_of(v@)[l as int].take(ind as int)) == strs_of(
                    v@,
                ).subrange(l as int, r as int),
                None => false,
            }),
            l == r ==> res is None,
        decreases r - l, (if l < r {
            strs_of(v@)[l as int].len() + 1 - ind
        } else {
            0int
        }),
    {
        let ghost m = strs_of(v@);
        if l == r {
            return None;
        }
        proof {
            if l + 1 < r {
                assert forall|q: int| l <= q < r implies ind < (#[trigger] m[q]).len() by {
                    if ind == m[q].len() {
                        let q2: int = if q == l {
                            l + 1
                        } else {
                            l as int
                        };
                        assert(m[q].take(ind as int) == m[q2].take(ind as int));
                        assert(m[q].take(ind as int) =~= m[q]);
                        assert(is_prefix(m[q], m[q2])) by {
                            assert(m[q2].take(ind as int) == m[q]);
                        }
                    }
                }
            }
        }
        if l + 1 == r {
            let ln = str_len(&v[l]);
            let tail = get_substr(&v[l], ind, ln);
            let node = TrieNode { s: tail, left: None, right: None };
            proof {
                assert(m[l as int].take(ind as int) + bits_of(node.s) =~= m[l as int]);
                assert(strs_at(node, m[l as int].take(ind as int)) =~= m.subrange(
                    l as int,
                    r as int,
                ));
            }
            return Some(Box::new(node));
        }
        proof {
            assert(forall|q: int| 0 <= q < v@.len() ==> m[q] == #[trigger] bits_of(v@[q]));
        }
        let mut mid = l;
        while mid < r && !str_get(&v[mid], ind)
            invariant
                l <= mid <= r,
                r <= v@.len(),
                m == strs_of(v@),
                forall|q: int| 0 <= q < v@.len() ==> m[q] == #[trigger] bits_of(v@[q]),
                forall|q: int| l <= q < r ==> ind < (#[trigger] m[q]).len(),
                forall|q: int| l <= q < mid ==> !(#[trigger] m[q])[ind as int],
            decreases r - mid,
        {
            mid = mid + 1;
        }
        proof {
            if mid < r {
                assert(m[mid as int][ind as int]);
                assert forall|q: int| mid <= q < r implies (#[trigger] m[q])[ind as int] by {
                    if !m[q][ind as int] && q != mid {
                        assert forall|t: int| 0 <= t < ind implies m[q][t] == m[mid as int][t] by {
                            assert(m[q].take(ind as int) == m[mid as int].take(ind as int));
                            assert(m[q].take(ind as int)[t] == m[q][t]);
                            assert(m[mid as int].take(ind as int)[t] == m[mid as int][t]);
                        }
                        lemma_lex_diverge(m[q], m[mid as int], ind as int);
                        lemma_lex_total(m[mid as int], m[q]);
                    }
                }
            }
        }
        if mid != l && mid != r {
            proof {
                Self::lemma_halves_share(m, l as int, mid as int, r as int, ind as int);
            }
            let lnode = TrieNode::build(v, ind + 1, l, mid, Ghost(model));
            let rnode = TrieNode::build(v, ind + 1, mid, r, Ghost(model));
            let node = TrieNode { s: str_new(), left: lnode, right: rnode };
            proof {
                let p = m[l as int].take(ind as int);
                assert(p + bits_of(node.s) + seq![false] =~= m[l as int].take(ind + 1));
                assert(p + bits_of(node.s) + seq![true] =~= m[mid as int].take(ind + 1)) by {
                    assert(m[mid as int].take(ind as int) == p);
                    assert(forall|t: int|
                        0 <= t < ind ==> #[trigger] m[mid as int].take(ind + 1)[t] == m[
                            mid as int].take(ind as int)[t]);
                }
                assert(strs_at(node, p) =~= m.subrange(l as int, r as int)) by {
                    assert(strs_at(node, p) == m.subrange(l as int, mid as int) + m.subrange(
                        mid as int,
                        r as int,
                    ));
                }
            }
            return Some(Box::new(node));
        } else {
            proof {
                assert forall|q1: int, q2: int|
                    l <= q1 < r && l <= q2 < r implies (#[trigger] m[q1]).take(ind + 1)
                    == (#[trigger] m[q2]).take(ind + 1) by {
                    assert(m[q1].take(ind as int) == m[q2].take(ind as int));
                    assert forall|t: int| 0 <= t < ind + 1 implies m[q1][t] == m[q2][t] by {
                        if t < ind {
                            assert(m[q1].take(ind as int)[t] == m[q1][t]);
                            assert(m[q2].take(ind as int)[t] == m[q2][t]);
                        } else {
                            if mid == l {
                                assert(m[q1][ind as int] && m[q2][ind as int]);
                            } else {
                                assert(!m[q1][ind as int] && !m[q2][ind as int]);
                            }
                        }
                    }
                    assert(m[q1].take(ind + 1) =~= m[q2].take(ind + 1));
                }
            }
            let sub = TrieNode::build(v, ind + 1, l, r, Ghost(model));
            let boxed = match sub {
                Some(b) => b,
                None => {
                    return None;
                },
            };
            let ghost bnode = *boxed;
            let mut inner = *boxed;
            let ghost olds = bits_of(inner.s);
            let bit = str_get(&v[l], ind);
            crate::bitstr::push_front(&mut inner.s, bit);
            proof {
                let p0 = m[l as int].take(ind as int);
                let p1 = m[l as int].take(ind + 1);
                assert(p1 =~= p0.push(bit));
                assert(p0 + bits_of(inner.s) =~= p1 + olds);
                Self::lemma_wf_shift(inner, bnode, p0, p1, model);
                Self::lemma_strs_shift(inner, bnode, p0, p1);
            }
            return Some(Box::new(inner));
        }
    }

    /// Both halves of a split share one more bit than their parent range.
    proof fn lemma_halves_share(m: Seq<Seq<bool>>, l: int, mid: int, r: int, ind: int)
        requires
            0 <= l < mid < r <= m.len(),
            0 <= ind,
            forall|q: int| l <= q < r ==> ind < (#[trigger] m[q]).len(),
            forall|q1: int, q2: int|
                l <= q1 < r && l <= q2 < r ==> (#[trigger] m[q1]).take(ind) == (#[trigger] m[q2]).take(
                    ind,
                ),
            forall|q: int| l <= q < mid ==> !(#[trigger] m[q])[ind],
            forall|q: int| mid <= q < r ==> (#[trigger] m[q])[ind],
        ensures
            forall|q1: int, q2: int|
                l <= q1 < mid && l <= q2 < mid ==> (#[trigger] m[q1]).take(ind + 1)
                    == (#[trigger] m[q2]).take(ind + 1),
            forall|q1: int, q2: int|
                mid <= q1 < r && mid <= q2 < r ==> (#[trigger] m[q1]).take(ind + 1)
                    == (#[trigger] m[q2]).take(ind + 1),
    {
        assert forall|q1: int, q2: int|
            l <= q1 < mid && l <= q2 < mid implies (#[trigger] m[q1]).take(ind + 1)
            == (#[trigger] m[q2]).take(ind + 1) by {
            assert forall|t: int| 0 <= t < ind + 1 implies m[q1][t] == m[q2][t] by {
                if t < ind {
                    assert(m[q1].take(ind)[t] == m[q1][t]);
                    assert(m[q2].take(ind)[t] == m[q2][t]);
                    assert(m[q1].take(ind) == m[q2].take(ind));
                }
            }
            assert(m[q1].take(ind + 1) =~= m[q2].take(ind + 1));
        }
        assert forall|q1: int, q2: int|
            mid <= q1 < r && mid <= q2 < r implies (#[trigger] m[q1]).take(ind + 1)
            == (#[trigger] m[q2]).take(ind + 1) by {
            assert forall|t: int| 0 <= t < ind + 1 implies m[q1][t] == m[q2][t] by {
                if t < ind {
                    assert(m[q1].take(ind)[t] == m[q1][t]);
                    assert(m[q2].take(ind)[t] == m[q2][t]);
                    assert(m[q1].take(ind) == m[q2].take(ind));
                }
            }
            assert(m[q1].take(ind + 1) =~= m[q2].take(ind + 1));
        }
    }

    /// A node stays sound when its label absorbs the head of its path.
    proof fn lemma_wf_shift(
        after: TrieNode,
        before: TrieNode,
        p0: Seq<bool>,
        p1: Seq<bool>,
        model: Seq<Seq<bool>>,
    )
        requires
            wf_at(before, p1, model),
            after.left == before.left,
            after.right == before.right,
            p0 + bits_of(after.s) == p1 + bits_of(before.s),

        ensures
            wf_at(after, p0, model),
    {
        match (after.left, after.right) {
            (Option::None, Option::None) => {},
            (Option::Some(l), Option::Some(r)) => {
                assert(p0 + bits_of(after.s) + seq![false] =~= p1 + bits_of(before.s) + seq![
                    false,
                ]);
                assert(p0 + bits_of(after.s) + seq![true] =~= p1 + bits_of(before.s) + seq![
                    true,
                ]);
            },
            _ => {},
        }
    }

    /// The stored strings are unchanged when the label absorbs the head
    /// of its path.
    proof fn lemma_strs_shift(after: TrieNode, before: TrieNode, p0: Seq<bool>, p1: Seq<bool>)
        requires
            after.left == before.left,
            after.right == before.right,
            p0 + bits_of(after.s) == p1 + bits_of(before.s),
        ensures
            strs_at(after, p0) == strs_at(before, p1),
    {
        match (after.left, after.right) {
            (Option::Some(l), Option::Some(r)) => {
                assert(p0 + bits_of(after.s) + seq![false] =~= p1 + bits_of(before.s) + seq![
                    false,
                ]);
                assert(p0 + bits_of(after.s) + seq![true] =~= p1 + bits_of(before.s) + seq![
                    true,
                ]);
            },
            _ => {},
        }
    }

    /// The greatest string of this subtree strictly below `x`, or nothing
    /// when the subtree holds no string below `x`.
    fn pred_query(
        &self,
        x: &Str,
        curr: &mut Str,
        found: &mut bool,
        Ghost(model): Ghost<Seq<Seq<bool>>>,
    ) -> (r: Option<Str>)
        requires
            *old(found) ==> diverged_below(bits_of(*old(curr)), bits_of(*x)),
            !*old(found) ==> tracks_prefix(bits_of(*old(curr)), bits_of(*x)),
        ensures
            is_pred_answer(strs_at(*self, bits_of(*old(curr))), bits_of(*x), opt_bits(r)),
        decreases self,
    {
        let ghost p0 = bits_of(*curr);
        let ghost m = strs_at(*self, p0);
        let ghost q = p0 + bits_of(self.s);
        let ghost xb = bits_of(*x);
        proof {
            lemma_strs_at_prefixed(*self, p0);
        }
        let n = str_len(&self.s);
        let mut i: usize = 0;
        while i < n
            invariant
                n == bits_of(self.s).len(),
                i <= n,
                p0 == bits_of(*old(curr)),
                xb == bits_of(*x),
                m == strs_at(*self, p0),
                q == p0 + bits_of(self.s),
                forall|t: Seq<bool>| #[trigger] m.contains(t) ==> is_prefix(q, t),
                bits_of(*curr) == p0 + bits_of(self.s).take(i as int),
                *found ==> diverged_below(bits_of(*curr), bits_of(*x)),
                !*found ==> tracks_prefix(bits_of(*curr), bits_of(*x)),
            decreases n - i,
        {
            let c = str_get(&self.s, i);
            let ghost cb = bits_of(*curr);
            let ok = upd_curr_pred(x, curr, found, c);
            if !ok {
                proof {
                    // the query string ends, or leaves downward, inside
                    // this edge: every stored string here is above x
                    assert(is_prefix(cb.push(c), q)) by {
                        assert(cb.push(c) =~= p0 + bits_of(self.s).take(i + 1));
                        assert(q.take(p0.len() + i + 1) =~= p0 + bits_of(self.s).take(i + 1));
                    }
                    assert(is_prefix(cb, cb.push(c))) by {
                        assert(cb.push(c).take(cb.len() as int) =~= cb);
                    }
                    assert forall|t: Seq<bool>| #[trigger] m.contains(t) implies !lex_lt(
                        t,
                        xb,
                    ) by {
                        lemma_prefix_trans(cb.push(c), q, t);
                        if cb.len() == xb.len() {
                            assert(cb =~= xb);
                            lemma_prefix_trans(cb, cb.push(c), t);
                            lemma_prefix_le(xb, t);
                            lemma_lex_total(t, xb);
                        } else {
                            assert(c && !xb[cb.len() as int]);
                            assert(diverged_above(cb.push(c), xb)) by {
                                let d = cb.len() as int;
                                assert(cb.push(c).take(d) =~= cb);
                                assert(cb == xb.take(d));
                            }
                            lemma_diverged_ge(cb.push(c), xb, t);
                            lemma_lex_total(t, xb);
                        }
                    }
                }
                return None;
            }
            proof {
                assert(bits_of(*curr) =~= p0 + bits_of(self.s).take(i + 1));
            }
            i = i + 1;
        }
        proof {
            assert(bits_of(*curr) =~= p0 + bits_of(self.s));
        }
        if *found {
            match (&self.left, &self.right) {
                (Some(lb), Some(rb)) => {
                    let ghost bl = strs_at(**lb, q + seq![false]);
                    let ghost br = strs_at(**rb, q + seq![true]);
                    proof {
                        assert(m == bl + br);
                        lemma_strs_at_prefixed(**lb, q + seq![false]);
                        lemma_strs_at_prefixed(**rb, q + seq![true]);
                        Self::lemma_children_prefixed(**lb, **rb, q);
                        // every string below this node is below x
                        assert forall|t: Seq<bool>| #[trigger] m.contains(t) implies lex_lt(
                            t,
                            xb,
                        ) by {
                            lemma_diverged_lt(q, xb, t);
                        }
                        lemma_strs_at_nonempty(**rb, q + seq![true]);
                    }
                    let ok = upd_curr_pred(x, curr, found, true);
                    proof {
                        assert(bits_of(*curr) =~= q + seq![true]);
                    }
                    let res = rb.pred_query(x, curr, found, Ghost(model));
                    proof {
                        match &res {
                            Some(out) => {
                                let ob = bits_of(*out);
                                assert(m.contains(ob)) by {
                                    lemma_concat_contains(bl, br, ob);
                                }
                                assert forall|t: Seq<bool>|
                                    #[trigger] m.contains(t) && lex_lt(t, xb) implies lex_le(
                                    t,
                                    ob,
                                ) by {
                                    lemma_concat_contains(bl, br, t);
                                    if bl.contains(t) {
                                        lemma_branch_lt(q, t, ob);
                                        lemma_lex_total(t, ob);
                                    }
                                }
                            },
                            None => {
                                let t0 = br[0];
                                assert(br.contains(t0));
                                assert(m.contains(t0)) by {
                                    lemma_concat_contains(bl, br, t0);
                                }
                                assert(lex_lt(t0, xb));
                            },
                        }
                    }
                    res
                },
                _ => {
                    let out = str_clone(curr);
                    proof {
                        assert(m =~= seq![q]);
                        assert(m.contains(q)) by {
                            assert(m[0] == q);
                        }
                        lemma_prefix_refl(q);
                        lemma_diverged_lt(q, xb, q);
                    }
                    Some(out)
                },
            }
        } else {
            let cl = str_len(curr);
            let xl = str_len(x);
            if cl == xl {
                proof {
                    assert(q =~= xb);
                    assert forall|t: Seq<bool>| #[trigger] m.contains(t) implies !lex_lt(
                        t,
                        xb,
                    ) by {
                        if t.len() == xb.len() {
                            lemma_prefix_same_len_eq(xb, t);
                            lemma_lex_total(t, xb);
                        } else {
                            lemma_prefix_le(xb, t);
                            lemma_lex_total(t, xb);
                        }
                    }
                }
                None
            } else if !str_get(x, cl) {
                match (&self.left, &self.right) {
                    (Some(lb), Some(rb)) => {
                        let ghost bl = strs_at(**lb, q + seq![false]);
                        let ghost br = strs_at(**rb, q + seq![true]);
                        proof {
                            assert(m == bl + br);
                            lemma_strs_at_prefixed(**lb, q + seq![false]);
                            lemma_strs_at_prefixed(**rb, q + seq![true]);
                            Self::lemma_children_prefixed(**lb, **rb, q);
                            // the right branch diverges above x
                            assert forall|u: Seq<bool>| #[trigger] br.contains(u) implies !lex_lt(
                                u,
                                xb,
                            ) by {
                                assert(diverged_above(q.push(true), xb)) by {
                                    let d = q.len() as int;
                                    assert(q.push(true).take(d) =~= q);
                                    assert(q == xb.take(d));
                                }
                                assert(is_prefix(q.push(true), u)) by {
                                    assert(q.push(true) =~= q + seq![true]);
                                }
                                lemma_diverged_ge(q.push(true), xb, u);
                                lemma_lex_total(u, xb);
                            }
                        }
                        let ok = upd_curr_pred(x, curr, found, false);
                        proof {
                            assert(bits_of(*curr) =~= q + seq![false]);
                        }
                        let res = lb.pred_query(x, curr, found, Ghost(model));
                        proof {
                            match &res {
                                Some(out) => {
                                    let ob = bits_of(*out);
                                    assert(m.contains(ob)) by {
                                        lemma_concat_contains(bl, br, ob);
                                    }
                                    assert forall|t: Seq<bool>|
                                        #[trigger] m.contains(t) && lex_lt(t, xb) implies lex_le(
                                        t,
                                        ob,
                                    ) by {
                                        lemma_concat_contains(bl, br, t);
                                    }
                                },
                                None => {
                                    assert forall|t: Seq<bool>|
                                        #[trigger] m.contains(t) implies !lex_lt(t, xb) by {
                                        lemma_concat_contains(bl, br, t);
                                    }
                                },
                            }
                        }
                        res
                    },
                    _ => {
                        let out = str_clone(curr);
                        proof {
                            assert(m =~= seq![q]);
                            assert(m.contains(q)) by {
                                assert(m[0] == q);
                            }
                            Self::lemma_proper_prefix_lt(q, xb);
                        }
                        Some(out)
                    },
                }
            } else {
                match (&self.left, &self.right) {
                    (Some(lb), Some(rb)) => {
                        let ghost bl = strs_at(**lb, q + seq![false]);
                        let ghost br = strs_at(**rb, q + seq![true]);
                        proof {
                            assert(m == bl + br);
                            lemma_strs_at_prefixed(**lb, q + seq![false]);
                            lemma_strs_at_prefixed(**rb, q + seq![true]);
                            Self::lemma_children_prefixed(**lb, **rb, q);
                            // the left branch diverges below x
                            assert forall|t: Seq<bool>| #[trigger] bl.contains(t) implies lex_lt(
                                t,
                                xb,
                            ) by {
                                assert(diverged_below(q.push(false), xb)) by {
                                    let d = q.len() as int;
                                    assert(q.push(false).take(d) =~= q);
                                    assert(q == xb.take(d));
                                }
                                assert(is_prefix(q.push(false), t)) by {
                                    assert(q.push(false) =~= q + seq![false]);
                                }
                                lemma_diverged_lt(q.push(false), xb, t);
                            }
                            lemma_strs_at_nonempty(**lb, q + seq![false]);
                        }
                        let mut tmp = str_clone(curr);
                        let ok = upd_curr_pred(x, &mut tmp, found, true);
                        proof {
                            assert(bits_of(tmp) =~= q + seq![true]);
                        }
                        let res = rb.pred_query(x, &mut tmp, found, Ghost(model));
                        match res {
                            Some(out) => {
                                proof {
                                    let ob = bits_of(out);
                                    assert(br.contains(ob));
                                    assert(m.contains(ob)) by {
                                        lemma_concat_contains(bl, br, ob);
                                    }
                                    assert forall|t: Seq<bool>|
                                        #[trigger] m.contains(t) && lex_lt(t, xb) implies lex_le(
                                        t,
                                        ob,
                                    ) by {
                                        lemma_concat_contains(bl, br, t);
                                        if bl.contains(t) {
                                            lemma_branch_lt(q, t, ob);
                                            lemma_lex_total(t, ob);
                                        }
                                    }
                                }
                                return Some(out);
                            },
                            None => {},
                        }
                        // nothing below x on the right: the whole left
                        // subtree branches off below x
                        *found = true;
                        let ghost cb = bits_of(*curr);
                        proof {
                            assert(diverged_below(cb.push(false), bits_of(*x))) by {
                                let d = cb.len() as int;
                                assert(cb.push(false).take(d) =~= cb);
                                assert(cb == bits_of(*x).take(d));
                                assert(!cb.push(false)[d] && bits_of(*x)[d]);
                            }
                        }
                        str_push(curr, false);
                        proof {
                            assert(bits_of(*curr) =~= q + seq![false]);
                        }
                        let res2 = lb.pred_query(x, curr, found, Ghost(model));
                        proof {
                            match &res2 {
                                Some(out) => {
                                    let ob = bits_of(*out);
                                    assert(m.contains(ob)) by {
                                        lemma_concat_contains(bl, br, ob);
                                    }
                                    assert forall|t: Seq<bool>|
                                        #[trigger] m.contains(t) && lex_lt(t, xb) implies lex_le(
                                        t,
                                        ob,
                                    ) by {
                                        lemma_concat_contains(bl, br, t);
                                    }
                                },
                                None => {
                                    let t0 = bl[0];
                                    assert(bl.contains(t0));
                                    assert(lex_lt(t0, xb));
                                },
                            }
                        }
                        res2
                    },
                    _ => {
                        let out = str_clone(curr);
                        proof {
                            assert(m =~= seq![q]);
                            assert(m.contains(q)) by {
                                assert(m[0] == q);
                            }
                            Self::lemma_proper_prefix_lt(q, xb);
                        }
                        Some(out)
                    },
                }
            }
        }
    }

    /// The strings of each child extend the node path continued with that
    /// child's branch bit.
    proof fn lemma_children_prefixed(l: TrieNode, r: TrieNode, q: Seq<bool>)
        ensures
            forall|t: Seq<bool>|
                #[trigger] strs_at(l, q + seq![false]).contains(t) ==> is_prefix(
                    q + seq![false],
                    t,
                ),
            forall|u: Seq<bool>|
                #[trigger] strs_at(r, q + seq![true]).contains(u) ==> is_prefix(
                    q + seq![true],
                    u,
                ),
    {
        lemma_strs_at_prefixed(l, q + seq![false]);
        lemma_strs_at_prefixed(r, q + seq![true]);
        assert forall|t: Seq<bool>|
            #[trigger] strs_at(l, q + seq![false]).contains(t) implies is_prefix(
            q + seq![false],
            t,
        ) by {
            lemma_prefix_extend(q + seq![false], bits_of(l.s));
            lemma_prefix_trans(q + seq![false], (q + seq![false]) + bits_of(l.s), t);
        }
        assert forall|u: Seq<bool>|
            #[trigger] strs_at(r, q + seq![true]).contains(u) implies is_prefix(
            q + seq![true],
            u,
        ) by {
            lemma_prefix_extend(q + seq![true], bits_of(r.s));
            lemma_prefix_trans(q + seq![true], (q + seq![true]) + bits_of(r.s), u);
        }
    }

    /// A proper prefix is strictly below the string it opens.
    proof fn lemma_proper_prefix_lt(c: Seq<bool>, x: Seq<bool>)
        requires
            tracks_prefix(c, x),
            c.len() < x.len(),
        ensures
            lex_lt(c, x),
    {
        assert(forall|j: int| 0 <= j < c.len() ==> c[j] == #[trigger] x.take(c.len() as int)[j]);
        assert(forall|j: int| 0 <= j < c.len() ==> c[j] == x[j]);
        lemma_lex_prefix(c, x);
    }

    /// The least string of this subtree at least `x`, or nothing when the
    /// subtree holds no string at least `x`.
    fn succ_query(
        &self,
        x: &Str,
        curr: &mut Str,
        found: &mut bool,
        Ghost(model): Ghost<Seq<Seq<bool>>>,
    ) -> (r: Option<Str>)
        requires
            *old(found) ==> diverged_above(bits_of(*old(curr)), bits_of(*x)),
            !*old(found) ==> tracks_prefix(bits_of(*old(curr)), bits_of(*x)) && bits_of(
                *old(curr),
            ).len() < bits_of(*x).len(),
        ensures
            is_succ_answer(strs_at(*self, bits_of(*old(curr))), bits_of(*x), opt_bits(r)),
        decreases self,
    {
        let ghost p0 = bits_of(*curr);
        let ghost m = strs_at(*self, p0);
        let ghost q = p0 + bits_of(self.s);
        let ghost xb = bits_of(*x);
        proof {
            lemma_strs_at_prefixed(*self, p0);
        }
        let n = str_len(&self.s);
        let mut i: usize = 0;
        while i < n
            invariant
                n == bits_of(self.s).len(),
                i <= n,
                p0 == bits_of(*old(curr)),
                xb == bits_of(*x),
                m == strs_at(*self, p0),
                q == p0 + bits_of(self.s),
                forall|t: Seq<bool>| #[trigger] m.contains(t) ==> is_prefix(q, t),
                bits_of(*curr) == p0 + bits_of(self.s).take(i as int),
                *found ==> diverged_above(bits_of(*curr), bits_of(*x)),
                !*found ==> tracks_prefix(bits_of(*curr), bits_of(*x)) && bits_of(*curr).len()
                    < bits_of(*x).len(),
            decreases n - i,
        {
            let c = str_get(&self.s, i);
            let ghost cb = bits_of(*curr);
            let ok = upd_curr_succ(x, curr, found, c);
            if !ok {
                proof {
                    // the edge leaves downward from x: every stored string
                    // here is below x
                    assert(is_prefix(cb.push(c), q)) by {
                        assert(cb.push(c) =~= p0 + bits_of(self.s).take(i + 1));
                        assert(q.take(p0.len() + i + 1) =~= p0 + bits_of(self.s).take(i + 1));
                    }
                    assert forall|t: Seq<bool>| #[trigger] m.contains(t) implies !lex_le(
                        xb,
                        t,
                    ) by {
                        lemma_prefix_trans(cb.push(c), q, t);
                        assert(!c && xb[cb.len() as int]);
                        assert(diverged_below(cb.push(c), xb)) by {
                            let d = cb.len() as int;
                            assert(cb.push(c).take(d) =~= cb);
                            assert(cb == xb.take(d));
                        }
                        lemma_diverged_lt(cb.push(c), xb, t);
                        lemma_lex_total(xb, t);
                    }
                }
                return None;
            }
            proof {
                assert(bits_of(*curr) =~= p0 + bits_of(self.s).take(i + 1));
            }
            i = i + 1;
        }
        proof {
            assert(bits_of(*curr) =~= p0 + bits_of(self.s));
        }
        if *found {
            match (&self.left, &self.right) {
                (Some(lb), Some(rb)) => {
                    let ghost bl = strs_at(**lb, q + seq![false]);
                    let ghost br = strs_at(**rb, q + seq![true]);
                    proof {
                        assert(m == bl + br);
                        Self::lemma_children_prefixed(**lb, **rb, q);
                        // every string below this node is at least x
                        assert forall|t: Seq<bool>| #[trigger] m.contains(t) implies lex_le(
                            xb,
                            t,
                        ) by {
                            lemma_diverged_ge(q, xb, t);
                        }
                        lemma_strs_at_nonempty(**lb, q + seq![false]);
                    }
                    let ok = upd_curr_succ(x, curr, found, false);
                    proof {
                        assert(bits_of(*curr) =~= q + seq![false]);
                    }
                    let res = lb.succ_query(x, curr, found, Ghost(model));
                    proof {
                        match &res {
                            Some(out) => {
                                let ob = bits_of(*out);
                                assert(m.contains(ob)) by {
                                    lemma_concat_contains(bl, br, ob);
                                }
                                assert forall|t: Seq<bool>|
                                    #[trigger] m.contains(t) && lex_le(xb, t) implies lex_le(
                                    ob,
                                    t,
                                ) by {
                                    lemma_concat_contains(bl, br, t);
                                    if br.contains(t) {
                                        lemma_branch_lt(q, ob, t);
                                        lemma_lex_total(ob, t);
                                    }
                                }
                            },
                            None => {
                                let t0 = bl[0];
                                assert(bl.contains(t0));
                                assert(m.contains(t0)) by {
                                    lemma_concat_contains(bl, br, t0);
                                }
                                assert(lex_le(xb, t0));
                            },
                        }
                    }
                    res
                },
                _ => {
                    let out = str_clone(curr);
                    proof {
                        assert(m =~= seq![q]);
                        assert(m.contains(q)) by {
                            assert(m[0] == q);
                        }
                        lemma_prefix_refl(q);
                        lemma_diverged_ge(q, xb, q);
                    }
                    Some(out)
                },
            }
        } else {
            let cl = str_len(curr);
            if str_get(x, cl) {
                match (&self.left, &self.right) {
                    (Some(lb), Some(rb)) => {
                        let ghost bl = strs_at(**lb, q + seq![false]);
                        let ghost br = strs_at(**rb, q + seq![true]);
                        proof {
                            assert(m == bl + br);
                            Self::lemma_children_prefixed(**lb, **rb, q);
                            // the left branch diverges below x
                            assert forall|t: Seq<bool>| #[trigger] bl.contains(t) implies !lex_le(
                                xb,
                                t,
                            ) by {
                                assert(diverged_below(q.push(false), xb)) by {
                                    let d = q.len() as int;
                                    assert(q.push(false).take(d) =~= q);
                                    assert(q == xb.take(d));
                                }
                                assert(is_prefix(q.push(false), t)) by {
                                    assert(q.push(false) =~= q + seq![false]);
                                }
                                lemma_diverged_lt(q.push(false), xb, t);
                                lemma_lex_total(xb, t);
                            }
                        }
                        let ok = upd_curr_succ(x, curr, found, true);
                        proof {
                            assert(bits_of(*curr) =~= q + seq![true]);
                        }
                        let res = rb.succ_query(x, curr, found, Ghost(model));
                        proof {
                            match &res {
                                Some(out) => {
                                    let ob = bits_of(*out);
                                    assert(m.contains(ob)) by {
                                        lemma_concat_contains(bl, br, ob);
                                    }
                                    assert forall|t: Seq<bool>|
                                        #[trigger] m.contains(t) && lex_le(xb, t) implies lex_le(
                                        ob,
                                        t,
                                    ) by {
                                        lemma_concat_contains(bl, br, t);
                                    }
                                },
                                None => {
                                    assert forall|t: Seq<bool>|
                                        #[trigger] m.contains(t) implies !lex_le(xb, t) by {
                                        lemma_concat_contains(bl, br, t);
                                    }
                                },
                            }
                        }
                        res
                    },
                    _ => {
                        proof {
                            assert(m =~= seq![q]);
                            assert forall|t: Seq<bool>| #[trigger] m.contains(t) implies !lex_le(
                                xb,
                                t,
                            ) by {
                                assert(t == q);
                                Self::lemma_proper_prefix_lt(q, xb);
                                lemma_lex_total(xb, q);
                            }
                        }
                        None
                    },
                }
            } else {
                match (&self.left, &self.right) {
                    (Some(lb), Some(rb)) => {
                        let ghost bl = strs_at(**lb, q + seq![false]);
                        let ghost br = strs_at(**rb, q + seq![true]);
                        proof {
                            assert(m == bl + br);
                            Self::lemma_children_prefixed(**lb, **rb, q);
                            // the right branch diverges above x
                            assert forall|u: Seq<bool>| #[trigger] br.contains(u) implies lex_le(
                                xb,
                                u,
                            ) by {
                                assert(diverged_above(q.push(true), xb)) by {
                                    let d = q.len() as int;
                                    assert(q.push(true).take(d) =~= q);
                                    assert(q == xb.take(d));
                                }
                                assert(is_prefix(q.push(true), u)) by {
                                    assert(q.push(true) =~= q + seq![true]);
                                }
                                lemma_diverged_ge(q.push(true), xb, u);
                            }
                            lemma_strs_at_nonempty(**rb, q + seq![true]);
                        }
                        let mut tmp = str_clone(curr);
                        let ok = upd_curr_succ(x, &mut tmp, found, false);
                        proof {
                            assert(bits_of(tmp) =~= q + seq![false]);
                        }
                        let res = lb.succ_query(x, &mut tmp, found, Ghost(model));
                        match res {
                            Some(out) => {
                                proof {
                                    let ob = bits_of(out);
                                    assert(bl.contains(ob));
                                    assert(m.contains(ob)) by {
                                        lemma_concat_contains(bl, br, ob);
                                    }
                                    assert forall|t: Seq<bool>|
                                        #[trigger] m.contains(t) && lex_le(xb, t) implies lex_le(
                                        ob,
                                        t,
                                    ) by {
                                        lemma_concat_contains(bl, br, t);
                                        if br.contains(t) {
                                            lemma_branch_lt(q, ob, t);
                                            lemma_lex_total(ob, t);
                                        }
                                    }
                                }
                                return Some(out);
                            },
                            None => {},
                        }
                        // nothing at or above x on the left: the whole
                        // right subtree branches off above x
                        *found = true;
                        let ghost cb = bits_of(*curr);
                        proof {
                            assert(diverged_above(cb.push(true), bits_of(*x))) by {
                                let d = cb.len() as int;
                                assert(cb.push(true).take(d) =~= cb);
                                assert(cb == bits_of(*x).take(d));
                                assert(cb.push(true)[d] && !bits_of(*x)[d]);
                            }
                        }
                        str_push(curr, true);
                        proof {
                            assert(bits_of(*curr) =~= q + seq![true]);
                        }
                        let res2 = rb.succ_query(x, curr, found, Ghost(model));
                        proof {
                            match &res2 {
                                Some(out) => {
                                    let ob = bits_of(*out);
                                    assert(m.contains(ob)) by {
                                        lemma_concat_contains(bl, br, ob);
                                    }
                                    assert forall|t: Seq<bool>|
                                        #[trigger] m.contains(t) && lex_le(xb, t) implies lex_le(
                                        ob,
                                        t,
                                    ) by {
                                        lemma_concat_contains(bl, br, t);
                                    }
                                },
                                None => {
                                    let t0 = br[0];
                                    assert(br.contains(t0));
                                    assert(lex_le(xb, t0));
                                },
                            }
                        }
                        res2
                    },
                    _ => {
                        proof {
                            assert(m =~= seq![q]);
                            assert forall|t: Seq<bool>| #[trigger] m.contains(t) implies !lex_le(
                                xb,
                                t,
                            ) by {
                                assert(t == q);
                                Self::lemma_proper_prefix_lt(q, xb);
                                lemma_lex_total(xb, q);
                            }
                        }
                        None
                    },
                }
            }
        }
    }
}

/// A compacted binary trie queried by descent.
pub struct CompactTrie {
    root: Option<Box<TrieNode>>,
    gmodel: Ghost<Seq<Seq<bool>>>,
}

impl CompactTrie {
    /// The stored bit sequences, in sorted order.
    pub closed spec fn model(&self) -> Seq<Seq<bool>> {
        self.gmodel@
    }

    pub closed spec fn wf(&self) -> bool {
        match self.root {
            Some(r) => wf_at(*r, Seq::empty(), self.gmodel@) && strs_at(*r, Seq::empty())
                == self.gmodel@,
            None => self.gmodel@.len() == 0,
        }
    }

    pub fn new() -> (r: CompactTrie)
        ensures
            r.wf(),
            r.model().len() == 0,
    {
        CompactTrie { root: None, gmodel: Ghost(Seq::empty()) }
    }

    /// Builds the trie over the given strings, which must be prefix-free
    /// (hence distinct); they are sorted internally.
    #[verifier::rlimit(60)]
    pub fn build(&mut self, v: &Vec<Str>)
        requires
            prefix_free(strs_of(v@)),
            forall|q: int| 0 <= q < v@.len() ==> (#[trigger] strs_of(v@)[q]).len() < 0x40000000,
        ensures
            final(self).wf(),
            sorted_strs(final(self).model()),
            final(self).model().to_multiset() == strs_of(v@).to_multiset(),
    {
        let mut x = clone_strs(v);
        sort_strs(&mut x);
        let ghost model = strs_of(x@);
        proof {
            lemma_multiset_props(strs_of(x@), strs_of(v@));
            crate::z_fast_trie::lemma_multiset_len_bound(strs_of(x@), strs_of(v@));
        }
        self.root = None;
        proof {
            self.gmodel@ = model;
        }
        let n = x.len();
        if n == 0 {
            proof {
                assert(model.len() == 0);
            }
            return ;
        }
        proof {
            assert(forall|q: int| 0 <= q < model.len() ==> model.contains(#[trigger] model[q]));
            assert(forall|q1: int, q2: int|
                0 <= q1 < n && 0 <= q2 < n ==> (#[trigger] model[q1]).take(0)
                    =~= (#[trigger] model[q2]).take(0));
        }
        let root = TrieNode::build(&x, 0, 0, n, Ghost(model));
        proof {
            assert(model.subrange(0, n as int) =~= model);
            match &root {
                Some(nd) => {
                    assert(model[0].take(0) =~= Seq::<bool>::empty());
                    assert(strs_at(**nd, model[0].take(0)) == model);
                    assert(strs_at(**nd, Seq::empty()) == model);
                },
                None => {},
            }
        }
        self.root = root;
    }

    /// The greatest stored string strictly below `x`, or nothing when no
    /// stored string is below `x`.
    pub fn pred_query(&self, x: &Str) -> (r: Option<Str>)
        requires
            self.wf(),
        ensures
            is_pred_answer(self.model(), bits_of(*x), opt_bits(r)),
    {
        match &self.root {
            Some(rn) => {
                let mut curr = str_new();
                let mut found = false;
                proof {
                    assert(bits_of(curr) =~= bits_of(*x).take(0));
                }
                let res = rn.pred_query(x, &mut curr, &mut found, Ghost(self.gmodel@));
                proof {
                    assert(strs_at(**rn, Seq::empty()) == self.model());
                }
                res
            },
            None => {
                proof {
                    assert forall|t: Seq<bool>| !(#[trigger] self.model().contains(t)) by {
                        if self.model().contains(t) {
                            let i = choose|i: int|
                                0 <= i < self.model().len() && self.model()[i] == t;
                        }
                    }
                }
                None
            },
        }
    }

    /// The least stored string at least `x`, or nothing when no stored
    /// string reaches `x`.
    pub fn succ_query(&self, x: &Str) -> (r: Option<Str>)
        requires
            self.wf(),
        ensures
            is_succ_answer(self.model(), bits_of(*x), opt_bits(r)),
    {
        match &self.root {
            Some(rn) => {
                let mut curr = str_new();
                let mut found = str_len(x) == 0;
                proof {
                    assert(bits_of(curr) =~= bits_of(*x).take(0));
                    if bits_of(*x).len() == 0 {
                        assert(is_prefix(bits_of(*x), bits_of(curr))) by {
                            assert(bits_of(curr).take(0) =~= bits_of(*x));
                        }
                    }
                }
                let res = rn.succ_query(x, &mut curr, &mut found, Ghost(self.gmodel@));
                proof {
                    assert(strs_at(**rn, Seq::empty()) == self.model());
                }
                res
            },
            None => {
                proof {
                    assert forall|t: Seq<bool>| !(#[trigger] self.model().contains(t)) by {
                        if self.model().contains(t) {
                            let i = choose|i: int|
                                0 <= i < self.model().len() && self.model()[i] == t;
                        }
                    }
                }
                None
            },
        }
    }

    /// Whether `x` is a prefix of some stored string: true exactly when a
    /// member extends `x`, decided through the successor of `x`.
    pub fn ex_pref_query(&self, x: &Str) -> (r: bool)
        requires
            self.wf(),
        ensures
            is_pref_answer(self.model(), bits_of(*x), r),
    {
        let ghost mm = self.model();
        let ghost xb = bits_of(*x);
        match self.succ_query(x) {
            Some(s) => {
                let sl = str_len(&s);
                let xl = str_len(x);
                if sl < xl {
                    proof {
                        crate::traits::lemma_no_pref_witness(mm, xb, bits_of(s));
                    }
                    false
                } else {
                    let pref = get_substr(&s, 0, xl);
                    let r = str_eq(&pref, x);
                    proof {
                        if r {
                            assert(is_prefix(xb, bits_of(s)));
                            assert(mm.contains(bits_of(s)));
                        } else {
                            assert(!is_prefix(xb, bits_of(s)));
                            crate::traits::lemma_no_pref_witness(mm, xb, bits_of(s));
                        }
                    }
                    r
                }
            },
            None => {
                proof {
                    crate::traits::lemma_no_succ_no_pref(mm, xb);
                }
                false
            },
        }
    }

    /// Whether some stored string lies strictly between `x` and `y`: true
    /// exactly when a member falls inside the open interval. The strict
    /// lower end is had by asking for the successor of `x` extended by a
    /// zero bit, which bounds exactly the strings strictly above `x`.
    pub fn ex_range_query(&self, x: &Str, y: &Str) -> (r: bool)
        requires
            self.wf(),
        ensures
            is_range_answer(self.model(), bits_of(*x), bits_of(*y), r),
    {
        let ghost mm = self.model();
        let ghost xb = bits_of(*x);
        let ghost yb = bits_of(*y);
        let mut xx = str_clone(x);
        str_push(&mut xx, false);
        match self.succ_query(&xx) {
            Some(s) => {
                let r = crate::bitstr::str_lt(&s, y);
                proof {
                    if r {
                        // x is a proper prefix of the probe, so anything at
                        // least the probe is strictly above x
                        lemma_prefix_extend(xb, seq![false]);
                        assert(xb.push(false) =~= xb + seq![false]);
                        lemma_prefix_le(xb, bits_of(xx));
                        lemma_lex_lt_le_trans(xb, bits_of(xx), bits_of(s));
                    } else {
                        // no member inside the interval: anything above x is
                        // at least the successor of the probe, which is not
                        // below y
                        assert forall|t: Seq<bool>|
                            !(#[trigger] mm.contains(t) && lex_lt(xb, t) && lex_lt(t, yb)) by {
                            if mm.contains(t) && lex_lt(xb, t) && lex_lt(t, yb) {
                                crate::bitstr::lemma_gt_implies_ge_push0(xb, t);
                                assert(lex_le(bits_of(s), t));
                                crate::bitstr::lemma_lex_le_lt_trans(bits_of(s), t, yb);
                            }
                        }
                    }
                }
                r
            },
            None => {
                proof {
                    assert forall|t: Seq<bool>|
                        !(#[trigger] mm.contains(t) && lex_lt(xb, t) && lex_lt(t, yb)) by {
                        if mm.contains(t) && lex_lt(xb, t) {
                            crate::bitstr::lemma_gt_implies_ge_push0(xb, t);
                        }
                    }
                }
                false
            },
        }
    }
}

impl crate::traits::Trie for CompactTrie {
    open spec fn inv(&self) -> bool {
        self.wf()
    }

    open spec fn contents(&self) -> Seq<Seq<bool>> {
        self.model()
    }

    fn build(&mut self, v: &Vec<Str>) {
        CompactTrie::build(self, v)
    }

    fn pred_query(&self, x: &Str) -> (r: Option<Str>) {
        CompactTrie::pred_query(self, x)
    }

    fn succ_query(&self, x: &Str) -> (r: Option<Str>) {
        CompactTrie::succ_query(self, x)
    }

    fn ex_pref_query(&self, x: &Str) -> (r: bool) {
        CompactTrie::ex_pref_query(self, x)
    }

    fn ex_range_query(&self, x: &Str, y: &Str) -> (r: bool) {
        CompactTrie::ex_range_query(self, x, y)
    }
}

} // verus!
