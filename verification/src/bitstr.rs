//! Ordered bit strings: the domain type of every structure in this crate.
//!
//! Storage is `sux`'s `BitVec`; everything computed on top of it
//! (lexicographic comparison, substrings, longest common prefixes) is
//! verified against the bit sequence `bits_of` that the vector holds.

use vstd::prelude::*;
use core::cmp::Ordering;

verus! {

/// Number of bits in one storage word of the backing bit vector.
pub const WORD_SIZE: usize = 64;

/// A bit string, stored compactly in `sux`'s `BitVec` over `Vec<usize>`.
pub type Str = sux::bits::BitVec<Vec<usize>>;

#[verifier::external_type_specification]
#[verifier::external_body]
#[verifier::reject_recursive_types(B)]
pub struct ExBitVec<B>(sux::bits::BitVec<B>);

/// The sequence of bits that a `Str` holds, in order.
pub uninterp spec fn bits_of(s: Str) -> Seq<bool>;

/// Relies on sux's `BitVec::new`: a bit vector of length 0 holds no bits.
#[verifier::external_body]
pub fn str_new() -> (r: Str)
    ensures
        bits_of(r) == Seq::<bool>::empty(),
{
    sux::bits::BitVec::new(0)
}

/// Relies on sux's `BitVec::len`: the number of bits held.
#[verifier::external_body]
pub fn str_len(s: &Str) -> (r: usize)
    ensures
        r == bits_of(*s).len(),
{
    s.len()
}

/// Relies on sux's `BitVecOps::get`: the bit at the given index.
#[verifier::external_body]
pub fn str_get(s: &Str, i: usize) -> (r: bool)
    requires
        i < bits_of(*s).len(),
    ensures
        r == bits_of(*s)[i as int],
{
    sux::traits::BitVecOps::get(s, i)
}

/// Relies on sux's `BitVec::push`: appends one bit at the end.
#[verifier::external_body]
pub fn str_push(s: &mut Str, b: bool)
    ensures
        bits_of(*final(s)) == bits_of(*old(s)).push(b),
{
    s.push(b);
}

/// Relies on sux's `BitVecOpsMut::set`: overwrites the bit at the given index.
#[verifier::external_body]
pub fn str_set(s: &mut Str, i: usize, b: bool)
    requires
        i < bits_of(*old(s)).len(),
    ensures
        bits_of(*final(s)) == bits_of(*old(s)).update(i as int, b),
{
    sux::traits::BitVecOpsMut::set(s, i, b);
}

/// Relies on sux's `BitVec::resize`: truncates, or extends with the given bit.
#[verifier::external_body]
pub fn str_resize(s: &mut Str, n: usize, b: bool)
    ensures
        bits_of(*final(s)) == (if n <= bits_of(*old(s)).len() {
            bits_of(*old(s)).take(n as int)
        } else {
            bits_of(*old(s)) + Seq::new((n - bits_of(*old(s)).len()) as nat, |i: int| b)
        }),
{
    s.resize(n, b);
}

/// Relies on sux's `PartialEq for BitVec`: equal length and equal bits.
#[verifier::external_body]
pub fn str_eq(a: &Str, b: &Str) -> (r: bool)
    ensures
        r <==> bits_of(*a) == bits_of(*b),
{
    a == b
}

/// Relies on the `Clone` that sux derives for `BitVec`: same length, same bits.
#[verifier::external_body]
pub fn str_clone(s: &Str) -> (r: Str)
    ensures
        bits_of(r) == bits_of(*s),
{
    s.clone()
}

/// Strict lexicographic order on bit sequences, `false` before `true`,
/// a proper prefix before its extensions.
pub open spec fn lex_lt(a: Seq<bool>, b: Seq<bool>) -> bool
    decreases a.len(),
{
    if b.len() == 0 {
        false
    } else if a.len() == 0 {
        true
    } else if a[0] == b[0] {
        lex_lt(a.skip(1), b.skip(1))
    } else {
        !a[0]
    }
}

pub open spec fn lex_le(a: Seq<bool>, b: Seq<bool>) -> bool {
    lex_lt(a, b) || a == b
}

/// Of `lex_lt(a, b)`, `a == b`, `lex_lt(b, a)`, exactly one holds.
pub proof fn lemma_lex_total(a: Seq<bool>, b: Seq<bool>)
    ensures
        lex_lt(a, b) || a == b || lex_lt(b, a),
        lex_lt(a, b) ==> a != b && !lex_lt(b, a),
        a == b ==> !lex_lt(a, b) && !lex_lt(b, a),
    decreases a.len(),
{
    if b.len() == 0 {
        if a.len() == 0 {
            assert(a =~= b);
        }
    } else if a.len() == 0 {
        assert(a != b);
    } else if a[0] == b[0] {
        lemma_lex_total(a.skip(1), b.skip(1));
        if a.skip(1) == b.skip(1) {
            assert(a =~= b) by {
                assert(forall|i: int|
                    1 <= i < a.len() ==> a[i] == a.skip(1)[i - 1] && b[i] == b.skip(1)[i - 1]);
            }
        }
        if a == b {
            assert(a.skip(1) =~= b.skip(1));
        }
    } else {
        assert(a != b) by {
            assert(a[0] != b[0]);
        }
    }
}

/// Dropping an equal front element on both sides keeps the order.
pub proof fn lemma_lex_skip1(a: Seq<bool>, b: Seq<bool>)
    requires
        a.len() > 0,
        b.len() > 0,
        a[0] == b[0],
    ensures
        lex_lt(a, b) <==> lex_lt(a.skip(1), b.skip(1)),
{
}

/// Dropping an equal prefix of length `i` on both sides keeps the order.
pub proof fn lemma_lex_skip(a: Seq<bool>, b: Seq<bool>, i: int)
    requires
        0 <= i <= a.len(),
        i <= b.len(),
        forall|j: int| 0 <= j < i ==> a[j] == b[j],
    ensures
        lex_lt(a, b) <==> lex_lt(a.skip(i), b.skip(i)),
    decreases i,
{
    if i > 0 {
        lemma_lex_skip1(a, b);
        lemma_lex_skip(a.skip(1), b.skip(1), i - 1);
        assert(a.skip(1).skip(i - 1) =~= a.skip(i));
        assert(b.skip(1).skip(i - 1) =~= b.skip(i));
    } else {
        assert(a.skip(0) =~= a);
        assert(b.skip(0) =~= b);
    }
}

/// If the two sides first differ at index `i`, the one holding `false` there
/// is the smaller.
pub proof fn lemma_lex_diverge(a: Seq<bool>, b: Seq<bool>, i: int)
    requires
        0 <= i < a.len(),
        i < b.len(),
        forall|j: int| 0 <= j < i ==> a[j] == b[j],
        a[i] != b[i],
    ensures
        lex_lt(a, b) <==> !a[i],
        a != b,
{
    lemma_lex_skip(a, b, i);
    lemma_lex_skip(b, a, i);
    assert(a.skip(i)[0] == a[i]);
    assert(b.skip(i)[0] == b[i]);
    assert(a[i] != b[i]);
}

/// A prefix is below every proper extension of it.
pub proof fn lemma_lex_prefix(a: Seq<bool>, b: Seq<bool>)
    requires
        a.len() <= b.len(),
        forall|j: int| 0 <= j < a.len() ==> a[j] == b[j],
    ensures
        lex_lt(a, b) <==> a.len() < b.len(),
        a.len() == b.len() ==> a == b,
{
    lemma_lex_skip(a, b, a.len() as int);
    assert(a.skip(a.len() as int) =~= Seq::<bool>::empty());
    if a.len() == b.len() {
        assert(a =~= b);
    }
}

/// Lexicographic order is transitive.
pub proof fn lemma_lex_trans(a: Seq<bool>, b: Seq<bool>, c: Seq<bool>)
    requires
        lex_lt(a, b),
        lex_lt(b, c),
    ensures
        lex_lt(a, c),
    decreases a.len() + b.len() + c.len(),
{
    if a.len() == 0 {
        if c.len() == 0 {
            assert(b.len() > 0);
        }
    } else {
        assert(b.len() > 0);
        assert(c.len() > 0);
        if a[0] == b[0] && b[0] == c[0] {
            lemma_lex_trans(a.skip(1), b.skip(1), c.skip(1));
        } else if a[0] == b[0] {
            assert(!b[0]);
            assert(a[0] == b[0]);
        } else if b[0] == c[0] {
            assert(!a[0]);
        } else {
            assert(!a[0] && b[0]);
            assert(!b[0]);
        }
    }
}

/// Three-way lexicographic comparison of two bit strings, bit by bit,
/// shorter first on an equal prefix.
pub fn cmp(x: &Str, y: &Str) -> (r: Ordering)
    ensures
        (r == Ordering::Less <==> lex_lt(bits_of(*x), bits_of(*y))),
        (r == Ordering::Equal <==> bits_of(*x) == bits_of(*y)),
        (r == Ordering::Greater <==> lex_lt(bits_of(*y), bits_of(*x))),
{
    let xl = str_len(x);
    let yl = str_len(y);
    let min: usize = if xl < yl { xl } else { yl };
    let ghost a = bits_of(*x);
    let ghost b = bits_of(*y);
    let mut i: usize = 0;
    while i < min
        invariant
            0 <= i <= min,
            min <= a.len(),
            min <= b.len(),
            a == bits_of(*x),
            b == bits_of(*y),
            xl == a.len(),
            yl == b.len(),
            min == if xl < yl { xl } else { yl },
            forall|j: int| 0 <= j < i ==> a[j] == b[j],
        decreases min - i,
    {
        let xb = str_get(x, i);
        let yb = str_get(y, i);
        if xb != yb {
            proof {
                lemma_lex_diverge(a, b, i as int);
                lemma_lex_diverge(b, a, i as int);
            }
            if !xb {
                return Ordering::Less;
            } else {
                return Ordering::Greater;
            }
        }
        i += 1;
    }
    proof {
        if xl <= yl {
            lemma_lex_prefix(a, b);
        } else {
            lemma_lex_prefix(b, a);
        }
        lemma_lex_total(a, b);
    }
    if xl < yl {
        Ordering::Less
    } else if xl > yl {
        Ordering::Greater
    } else {
        Ordering::Equal
    }
}

/// The substring of `x` from `start` (included) to `end` (excluded).
pub fn get_substr(x: &Str, start: usize, end: usize) -> (r: Str)
    requires
        start <= end,
        end <= bits_of(*x).len(),
    ensures
        bits_of(r) == bits_of(*x).subrange(start as int, end as int),
{
    let mut res = str_new();
    let mut i: usize = start;
    while i < end
        invariant
            start <= i <= end,
            end <= bits_of(*x).len(),
            bits_of(res) == bits_of(*x).subrange(start as int, i as int),
        decreases end - i,
    {
        let b = str_get(x, i);
        str_push(&mut res, b);
        proof {
            assert(bits_of(res) =~= bits_of(*x).subrange(start as int, i + 1 as int));
        }
        i += 1;
    }
    res
}

/// Prepends one bit in front of all bits of `x`.
pub fn push_front(x: &mut Str, val: bool)
    ensures
        bits_of(*final(x)) == seq![val] + bits_of(*old(x)),
{
    let mut tmp = str_new();
    str_push(&mut tmp, val);
    let n = str_len(x);
    let mut i: usize = 0;
    while i < n
        invariant
            0 <= i <= n,
            n == bits_of(*x).len(),
            bits_of(*x) == bits_of(*old(x)),
            bits_of(tmp) == seq![val] + bits_of(*old(x)).take(i as int),
        decreases n - i,
    {
        let b = str_get(x, i);
        str_push(&mut tmp, b);
        proof {
            assert(bits_of(tmp) =~= seq![val] + bits_of(*old(x)).take(i + 1 as int));
        }
        i += 1;
    }
    proof {
        assert(bits_of(*old(x)).take(n as int) =~= bits_of(*old(x)));
    }
    *x = tmp;
}

/// The longest common prefix of two bit sequences.
pub open spec fn lcp_seq(a: Seq<bool>, b: Seq<bool>) -> Seq<bool>
    decreases a.len(),
{
    if a.len() == 0 || b.len() == 0 {
        Seq::empty()
    } else if a[0] == b[0] {
        seq![a[0]] + lcp_seq(a.skip(1), b.skip(1))
    } else {
        Seq::empty()
    }
}

/// A prefix of length `i` on which the two sides agree, and which ends at a
/// divergence or at the end of one side, is the longest common prefix.
pub proof fn lemma_lcp_take(a: Seq<bool>, b: Seq<bool>, i: int)
    requires
        0 <= i <= a.len(),
        i <= b.len(),
        forall|j: int| 0 <= j < i ==> a[j] == b[j],
        i == a.len() || i == b.len() || a[i] != b[i],
    ensures
        lcp_seq(a, b) == a.take(i),
    decreases i,
{
    if i == 0 {
        if a.len() == 0 || b.len() == 0 {
            assert(lcp_seq(a, b) =~= a.take(0));
        } else {
            assert(a[0] != b[0]);
            assert(lcp_seq(a, b) =~= a.take(0));
        }
    } else {
        assert(a[0] == b[0]);
        lemma_lcp_take(a.skip(1), b.skip(1), i - 1);
        assert(lcp_seq(a, b) == seq![a[0]] + a.skip(1).take(i - 1));
        assert(seq![a[0]] + a.skip(1).take(i - 1) =~= a.take(i));
    }
}

/// The longest common prefix is no longer than either side.
pub proof fn lemma_lcp_len(a: Seq<bool>, b: Seq<bool>)
    ensures
        lcp_seq(a, b).len() <= a.len(),
        lcp_seq(a, b).len() <= b.len(),
    decreases a.len(),
{
    if a.len() > 0 && b.len() > 0 && a[0] == b[0] {
        lemma_lcp_len(a.skip(1), b.skip(1));
    }
}

/// The longest common prefix of two bit strings.
pub fn lcp(x: &Str, y: &Str) -> (r: Str)
    ensures
        bits_of(r) == lcp_seq(bits_of(*x), bits_of(*y)),
{
    let xl = str_len(x);
    let yl = str_len(y);
    let min: usize = if xl < yl { xl } else { yl };
    let ghost a = bits_of(*x);
    let ghost b = bits_of(*y);
    let mut res = str_new();
    let mut i: usize = 0;
    while i < min
        invariant
            0 <= i <= min,
            min <= a.len(),
            min <= b.len(),
            a == bits_of(*x),
            b == bits_of(*y),
            min == if a.len() < b.len() { a.len() } else { b.len() },
            forall|j: int| 0 <= j < i ==> a[j] == b[j],
            bits_of(res) == a.take(i as int),
        decreases min - i,
    {
        let xb = str_get(x, i);
        let yb = str_get(y, i);
        if xb != yb {
            proof {
                lemma_lcp_take(a, b, i as int);
            }
            return res;
        }
        str_push(&mut res, xb);
        proof {
            assert(bits_of(res) =~= a.take(i + 1 as int));
        }
        i += 1;
    }
    proof {
        lemma_lcp_take(a, b, min as int);
    }
    res
}

/// `p` is a prefix of `t`.
pub open spec fn is_prefix(p: Seq<bool>, t: Seq<bool>) -> bool {
    p.len() <= t.len() && t.take(p.len() as int) == p
}

/// Non-strict lexicographic order is transitive.
pub proof fn lemma_lex_le_trans(a: Seq<bool>, b: Seq<bool>, c: Seq<bool>)
    requires
        lex_le(a, b),
        lex_le(b, c),
    ensures
        lex_le(a, c),
{
    if a != b && b != c {
        lemma_lex_trans(a, b, c);
    }
}

/// Every string is a prefix of itself.
pub proof fn lemma_prefix_refl(a: Seq<bool>)
    ensures
        is_prefix(a, a),
{
    assert(a.take(a.len() as int) =~= a);
}

/// Being-a-prefix is transitive.
pub proof fn lemma_prefix_trans(a: Seq<bool>, b: Seq<bool>, c: Seq<bool>)
    requires
        is_prefix(a, b),
        is_prefix(b, c),
    ensures
        is_prefix(a, c),
{
    assert forall|j: int| 0 <= j < a.len() implies c.take(a.len() as int)[j] == a[j] by {
        assert(b.take(a.len() as int)[j] == a[j]);
        assert(c.take(b.len() as int)[j] == b[j]);
        assert(b[j] == a[j]);
    }
    assert(c.take(a.len() as int) =~= a);
}

/// Every string opens its own extensions.
pub proof fn lemma_prefix_extend(a: Seq<bool>, b: Seq<bool>)
    ensures
        is_prefix(a, a + b),
{
    assert((a + b).take(a.len() as int) =~= a);
}

/// A prefix of equal length is the string itself.
pub proof fn lemma_prefix_same_len_eq(a: Seq<bool>, b: Seq<bool>)
    requires
        is_prefix(a, b),
        a.len() == b.len(),
    ensures
        a == b,
{
    assert(b.take(a.len() as int) =~= b);
}

/// A prefix is lexicographically at most any of its extensions.
pub proof fn lemma_prefix_le(p: Seq<bool>, t: Seq<bool>)
    requires
        is_prefix(p, t),
    ensures
        lex_le(p, t),
        p.len() < t.len() ==> lex_lt(p, t),
{
    assert(forall|j: int| 0 <= j < p.len() ==> p[j] == #[trigger] t.take(p.len() as int)[j]);
    assert(forall|j: int| 0 <= j < p.len() ==> p[j] == t[j]);
    lemma_lex_prefix(p, t);
}

/// Extensions of sibling branches are ordered: anything continuing with a
/// zero bit is below anything continuing with a one bit.
pub proof fn lemma_branch_lt(q: Seq<bool>, t: Seq<bool>, u: Seq<bool>)
    requires
        is_prefix(q + seq![false], t),
        is_prefix(q + seq![true], u),
    ensures
        lex_lt(t, u),
{
    let d = q.len() as int;
    assert forall|j: int| 0 <= j < d implies t[j] == u[j] by {
        assert(t.take(d + 1)[j] == t[j]);
        assert(u.take(d + 1)[j] == u[j]);
        assert((q + seq![false])[j] == q[j]);
        assert((q + seq![true])[j] == q[j]);
    }
    assert(t[d] == (q + seq![false])[d]) by {
        assert(t.take(d + 1)[d] == t[d]);
    }
    assert(u[d] == (q + seq![true])[d]) by {
        assert(u.take(d + 1)[d] == u[d]);
    }
    lemma_lex_diverge(t, u, d);
}

/// Strictly above `x` means at least `x` extended by a zero bit: the
/// probe `x0` sits between `x` and everything above `x`.
pub proof fn lemma_gt_implies_ge_push0(x: Seq<bool>, t: Seq<bool>)
    requires
        lex_lt(x, t),
    ensures
        lex_le(x.push(false), t),
{
    lemma_lex_lt_char(x, t);
    if x.len() < t.len() && is_prefix(x, t) {
        if !t[x.len() as int] {
            assert(is_prefix(x.push(false), t)) by {
                assert forall|j: int|
                    0 <= j < x.len() + 1 implies t.take(x.len() as int + 1)[j] == x.push(
                    false,
                )[j] by {
                    if j < x.len() {
                        assert(t.take(x.len() as int)[j] == x[j]);
                    }
                }
                assert(t.take(x.len() as int + 1) =~= x.push(false));
            }
            lemma_prefix_le(x.push(false), t);
        } else {
            assert forall|j: int| 0 <= j < x.len() implies x.push(false)[j] == t[j] by {
                assert(t.take(x.len() as int)[j] == x[j]);
            }
            lemma_lex_diverge(x.push(false), t, x.len() as int);
        }
    } else {
        let d = choose|d: int|
            0 <= d < x.len() && d < t.len() && #[trigger] x.take(d) == t.take(d) && !x[d] && t[d];
        assert forall|j: int| 0 <= j < d implies x.push(false)[j] == t[j] by {
            assert(x.take(d)[j] == x[j]);
            assert(t.take(d)[j] == t[j]);
        }
        lemma_lex_diverge(x.push(false), t, d);
    }
}

/// Membership in a concatenation is membership in one of the halves.
pub proof fn lemma_concat_contains(a: Seq<Seq<bool>>, b: Seq<Seq<bool>>, t: Seq<bool>)
    ensures
        (a + b).contains(t) <==> a.contains(t) || b.contains(t),
{
    if (a + b).contains(t) {
        let i = choose|i: int| 0 <= i < (a + b).len() && (a + b)[i] == t;
        if i < a.len() {
            assert(a[i] == t);
        } else {
            assert(b[i - a.len()] == t);
        }
    }
    if a.contains(t) {
        let i = choose|i: int| 0 <= i < a.len() && a[i] == t;
        assert((a + b)[i] == t);
    }
    if b.contains(t) {
        let i = choose|i: int| 0 <= i < b.len() && b[i] == t;
        assert((a + b)[a.len() + i] == t);
    }
}

/// Mixed transitivity: a non-strict step followed by a strict one.
pub proof fn lemma_lex_le_lt_trans(a: Seq<bool>, b: Seq<bool>, c: Seq<bool>)
    requires
        lex_le(a, b),
        lex_lt(b, c),
    ensures
        lex_lt(a, c),
{
    if a != b {
        lemma_lex_trans(a, b, c);
    }
}

/// Mixed transitivity: a strict step followed by a non-strict one.
pub proof fn lemma_lex_lt_le_trans(a: Seq<bool>, b: Seq<bool>, c: Seq<bool>)
    requires
        lex_lt(a, b),
        lex_le(b, c),
    ensures
        lex_lt(a, c),
{
    if b != c {
        lemma_lex_trans(a, b, c);
    }
}

/// A strict order holds exactly through a divergence with a cleared bit on
/// the left, or through a proper prefix.
pub proof fn lemma_lex_lt_char(a: Seq<bool>, b: Seq<bool>)
    requires
        lex_lt(a, b),
    ensures
        (a.len() < b.len() && is_prefix(a, b)) || exists|d: int|
            0 <= d < a.len() && d < b.len() && #[trigger] a.take(d) == b.take(d) && !a[d] && b[d],
    decreases a.len(),
{
    if a.len() == 0 {
        assert(is_prefix(a, b)) by {
            assert(b.take(0) =~= a);
        }
    } else if a[0] == b[0] {
        lemma_lex_lt_char(a.skip(1), b.skip(1));
        if a.skip(1).len() < b.skip(1).len() && is_prefix(a.skip(1), b.skip(1)) {
            assert(is_prefix(a, b)) by {
                assert(b.take(a.len() as int) =~= a) by {
                    assert(forall|i: int|
                        1 <= i < a.len() ==> a[i] == a.skip(1)[i - 1] && b[i] == b.skip(1)[i
                            - 1]);
                    assert(b.skip(1).take(a.len() - 1) =~= a.skip(1));
                }
            }
        } else {
            let d0 = choose|d: int|
                0 <= d < a.skip(1).len() && d < b.skip(1).len() && #[trigger] a.skip(1).take(d)
                    == b.skip(1).take(d) && !a.skip(1)[d] && b.skip(1)[d];
            assert forall|i: int| 0 <= i < d0 + 1 implies a[i] == b[i] by {
                if i > 0 {
                    assert(a.skip(1).take(d0)[i - 1] == b.skip(1).take(d0)[i - 1]);
                    assert(a.skip(1).take(d0)[i - 1] == a.skip(1)[i - 1]);
                    assert(b.skip(1).take(d0)[i - 1] == b.skip(1)[i - 1]);
                    assert(a.skip(1)[i - 1] == a[i]);
                    assert(b.skip(1)[i - 1] == b[i]);
                }
            }
            assert(a.take(d0 + 1) =~= b.take(d0 + 1));
            assert(!a[d0 + 1] && b[d0 + 1]);
        }
    } else {
        assert(a.take(0) =~= b.take(0));
        assert(!a[0] && b[0]);
    }
}

/// A string below one with prefix `x`, and not below `x` itself, also has
/// prefix `x`: members at least `x` but at most an extension of `x` lie
/// under `x`.
pub proof fn lemma_between_prefix(x: Seq<bool>, s: Seq<bool>, t: Seq<bool>)
    requires
        lex_le(x, s),
        lex_le(s, t),
        is_prefix(x, t),
    ensures
        is_prefix(x, s),
{
    if x == s {
        assert(s.take(x.len() as int) =~= x);
    } else if s == t {
    } else {
        assert(lex_lt(x, s) && lex_lt(s, t));
        lemma_lex_lt_char(x, s);
        if x.len() < s.len() && is_prefix(x, s) {
        } else {
            let d = choose|d: int|
                0 <= d < x.len() && d < s.len() && #[trigger] x.take(d) == s.take(d) && !x[d]
                    && s[d];
            // s diverges upward from x at d, but t agrees with x there and
            // s < t: contradiction
            assert(t[d] == x[d]) by {
                assert(t.take(x.len() as int) == x);
                assert(t.take(x.len() as int)[d] == t[d]);
            }
            assert forall|i: int| 0 <= i < d implies s[i] == t[i] by {
                assert(x.take(d)[i] == s.take(d)[i]);
                assert(t.take(x.len() as int)[i] == t[i]);
            }
            assert(t[d] != s[d]);
            lemma_lex_diverge(s, t, d);
            lemma_lex_total(s, t);
        }
    }
}

/// Non-strict comparison of two bit strings.
pub fn str_le(a: &Str, b: &Str) -> (r: bool)
    ensures
        r == lex_le(bits_of(*a), bits_of(*b)),
{
    let c = cmp(a, b);
    proof {
        lemma_lex_total(bits_of(*a), bits_of(*b));
    }
    match c {
        Ordering::Greater => false,
        _ => true,
    }
}

/// Strict comparison of two bit strings.
pub fn str_lt(a: &Str, b: &Str) -> (r: bool)
    ensures
        r == lex_lt(bits_of(*a), bits_of(*b)),
{
    let c = cmp(a, b);
    match c {
        Ordering::Less => true,
        _ => false,
    }
}

/// The bit sequences that a vector of bit strings holds, in order.
pub open spec fn strs_of(v: Seq<Str>) -> Seq<Seq<bool>> {
    v.map_values(|s: Str| bits_of(s))
}

/// Sorted in non-strict lexicographic order.
pub open spec fn sorted_strs(m: Seq<Seq<bool>>) -> bool {
    forall|i: int, j: int| 0 <= i < j < m.len() ==> lex_le(#[trigger] m[i], #[trigger] m[j])
}

/// A copy of a vector of bit strings, holding the same sequences.
pub fn clone_strs(v: &Vec<Str>) -> (r: Vec<Str>)
    ensures
        strs_of(r@) == strs_of(v@),
        r@.len() == v@.len(),
{
    let mut r: Vec<Str> = Vec::new();
    let n = v.len();
    let mut i: usize = 0;
    while i < n
        invariant
            0 <= i <= n,
            n == v@.len(),
            r@.len() == i,
            forall|j: int| 0 <= j < i ==> bits_of(#[trigger] r@[j]) == bits_of(v@[j]),
        decreases n - i,
    {
        let s = str_clone(&v[i]);
        r.push(s);
        i += 1;
    }
    proof {
        assert(strs_of(r@) =~= strs_of(v@));
    }
    r
}

/// Sorts a vector of bit strings lexicographically, by merging: the two
/// halves are sorted recursively and merged in order.
pub fn sort_strs(v: &mut Vec<Str>)
    ensures
        final(v)@.len() == old(v)@.len(),
        sorted_strs(strs_of(final(v)@)),
        strs_of(final(v)@).to_multiset() == strs_of(old(v)@).to_multiset(),
    decreases old(v)@.len(),
{
    let n = v.len();
    if n <= 1 {
        proof {
            assert(sorted_strs(strs_of(v@)));
        }
        return ;
    }
    let ghost pre = v@;
    let mut right = v.split_off(n / 2);
    proof {
        assert(pre =~= v@ + right@);
        lemma_strs_concat(v@, right@);
        lemma_multiset_commutative_strs(v@, right@);
    }
    let ghost lpre = v@;
    let ghost rpre = right@;
    sort_strs(v);
    sort_strs(&mut right);
    let ghost a = strs_of(v@);
    let ghost b = strs_of(right@);
    proof {
        broadcast use vstd::seq_lib::group_to_multiset_ensures;

        assert(a.to_multiset().add(b.to_multiset()) =~= strs_of(pre).to_multiset());
    }
    let la = v.len();
    let lb = right.len();
    let mut merged: Vec<Str> = Vec::new();
    let mut i: usize = 0;
    let mut j: usize = 0;
    while i < la || j < lb
        invariant
            i <= la,
            j <= lb,
            la == v@.len(),
            lb == right@.len(),
            a == strs_of(v@),
            b == strs_of(right@),
            sorted_strs(a),
            sorted_strs(b),
            merged@.len() == i + j,
            strs_of(merged@).to_multiset() == a.take(i as int).to_multiset().add(
                b.take(j as int).to_multiset(),
            ),
            sorted_strs(strs_of(merged@)),
            forall|p: int, q: int|
                0 <= p < merged@.len() && i <= q < la ==> lex_le(
                    #[trigger] strs_of(merged@)[p],
                    #[trigger] a[q],
                ),
            forall|p: int, q: int|
                0 <= p < merged@.len() && j <= q < lb ==> lex_le(
                    #[trigger] strs_of(merged@)[p],
                    #[trigger] b[q],
                ),
        decreases la - i + lb - j,
    {
        let take_left: bool = if i < la && j < lb {
            str_le(&v[i], &right[j])
        } else {
            i < la
        };
        let ghost mold = strs_of(merged@);
        if take_left {
            let e = str_clone(&v[i]);
            merged.push(e);
            proof {
                if j < lb {
                    lemma_lex_total(a[i as int], b[j as int]);
                }
                assert(strs_of(merged@) =~= mold.push(a[i as int]));
                lemma_take_push_multiset(a, i as int);
                assert(strs_of(merged@).to_multiset() =~= a.take(i + 1).to_multiset().add(
                    b.take(j as int).to_multiset(),
                )) by {
                    broadcast use vstd::seq_lib::group_to_multiset_ensures;

                }
                assert forall|p: int, q: int|
                    0 <= p < q < strs_of(merged@).len() implies lex_le(
                    #[trigger] strs_of(merged@)[p],
                    #[trigger] strs_of(merged@)[q],
                ) by {
                    if q < mold.len() {
                        assert(mold[p] == strs_of(merged@)[p] && mold[q] == strs_of(merged@)[q]);
                    } else {
                        assert(strs_of(merged@)[q] == a[i as int]);
                        if p < mold.len() {
                            assert(mold[p] == strs_of(merged@)[p]);
                        }
                    }
                }
                // elements still to come on the right are at least a[i]
                assert forall|p: int, q: int|
                    0 <= p < strs_of(merged@).len() && j <= q < lb implies lex_le(
                    #[trigger] strs_of(merged@)[p],
                    #[trigger] b[q],
                ) by {
                    if p == strs_of(merged@).len() - 1 && j < lb {
                        lemma_lex_le_trans(a[i as int], b[j as int], b[q]);
                    }
                }
            }
            i = i + 1;
        } else {
            let e = str_clone(&right[j]);
            merged.push(e);
            proof {
                if i < la {
                    lemma_lex_total(a[i as int], b[j as int]);
                }
                assert(strs_of(merged@) =~= mold.push(b[j as int]));
                lemma_take_push_multiset(b, j as int);
                assert(strs_of(merged@).to_multiset() =~= a.take(i as int).to_multiset().add(
                    b.take(j + 1).to_multiset(),
                )) by {
                    broadcast use vstd::seq_lib::group_to_multiset_ensures;

                }
                assert forall|p: int, q: int|
                    0 <= p < q < strs_of(merged@).len() implies lex_le(
                    #[trigger] strs_of(merged@)[p],
                    #[trigger] strs_of(merged@)[q],
                ) by {
                    if q < mold.len() {
                        assert(mold[p] == strs_of(merged@)[p] && mold[q] == strs_of(merged@)[q]);
                    } else {
                        assert(strs_of(merged@)[q] == b[j as int]);
                        if p < mold.len() {
                            assert(mold[p] == strs_of(merged@)[p]);
                        }
                    }
                }
                // elements still to come on the left are at least b[j]
                assert forall|p: int, q: int|
                    0 <= p < strs_of(merged@).len() && i <= q < la implies lex_le(
                    #[trigger] strs_of(merged@)[p],
                    #[trigger] a[q],
                ) by {
                    if p == strs_of(merged@).len() - 1 && i < la {
                        lemma_lex_total(a[i as int], b[j as int]);
                        lemma_lex_le_trans(b[j as int], a[i as int], a[q]);
                    }
                }
            }
            j = j + 1;
        }
    }
    proof {
        assert(a.take(la as int) =~= a);
        assert(b.take(lb as int) =~= b);
        assert(strs_of(merged@).to_multiset() =~= strs_of(pre).to_multiset());
    }
    *v = merged;
}

/// The bit sequences of a concatenation are the concatenated sequences.
proof fn lemma_strs_concat(a: Seq<Str>, b: Seq<Str>)
    ensures
        strs_of(a + b) == strs_of(a) + strs_of(b),
{
    assert(strs_of(a + b) =~= strs_of(a) + strs_of(b));
}

/// The multiset of a concatenation is the sum of the halves' multisets.
proof fn lemma_multiset_commutative_strs(a: Seq<Str>, b: Seq<Str>)
    ensures
        strs_of(a + b).to_multiset() == strs_of(a).to_multiset().add(strs_of(b).to_multiset()),
{
    lemma_strs_concat(a, b);
    vstd::seq_lib::lemma_multiset_commutative(strs_of(a), strs_of(b));
}

/// Taking one more element inserts it into the taken multiset.
proof fn lemma_take_push_multiset(s: Seq<Seq<bool>>, i: int)
    requires
        0 <= i < s.len(),
    ensures
        s.take(i + 1).to_multiset() == s.take(i).to_multiset().insert(s[i]),
{
    broadcast use vstd::seq_lib::group_to_multiset_ensures;

    assert(s.take(i + 1) =~= s.take(i).push(s[i]));
}

/// Appends the `WORD_SIZE` bits of one storage word, lowest bit first.
pub open spec fn word_bits(v: usize) -> Seq<bool> {
    Seq::new(64, |i: int| ((v as u64) >> (i as u64)) & 1u64 == 1u64)
}

/// Appends a whole storage word at the end of `x`, lowest bit first.
pub fn push_back(x: &mut Str, val: usize)
    ensures
        bits_of(*final(x)) == bits_of(*old(x)) + word_bits(val),
{
    let mut i: usize = 0;
    while i < 64
        invariant
            0 <= i <= 64,
            bits_of(*x) == bits_of(*old(x)) + word_bits(val).take(i as int),
        decreases 64 - i,
    {
        let b = ((val as u64) >> (i as u64)) & 1u64 == 1u64;
        str_push(x, b);
        proof {
            assert(bits_of(*x) =~= bits_of(*old(x)) + word_bits(val).take(i + 1 as int));
        }
        i += 1;
    }
    proof {
        assert(word_bits(val).take(64) =~= word_bits(val));
    }
}

} // verus!
