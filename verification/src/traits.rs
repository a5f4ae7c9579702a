//! The query contract that every trie of this crate answers to, stated over
//! the set of stored bit sequences, together with uniqueness lemmas: the
//! answers are functions of the stored set, so repeated queries on a built,
//! read-only structure cannot differ.

use vstd::prelude::*;
use crate::bitstr::{
    Str, bits_of, strs_of, sorted_strs, lex_lt, lex_le, is_prefix, lemma_lex_total,
    };
use crate::rank_structures::or_rank;
use crate::z_fast_trie::prefix_free;

verus! {

/// A hash over bit strings with constant-time prefix digests: the fast
/// path must agree with hashing the prefix from scratch.
pub trait Hash: Sized {
    type HashType;

    type State;

    /// The instance is fit for hashing.
    spec fn inv(&self) -> bool;

    fn new() -> (r: Self)
        ensures
            r.inv(),
    ;

    fn hash(&self, s: &Str) -> (r: Self::HashType)
        requires
            self.inv(),
    ;

    fn slow_prefix_hash(&self, s: &Str, ind: usize) -> (r: Self::HashType)
        requires
            self.inv(),
            ind <= bits_of(*s).len(),
    ;

    /// The precomputed state belongs to this instance on this string.
    spec fn state_fits(&self, s: Seq<bool>, state: Self::State) -> bool;

    fn compute_state(&self, s: &Str) -> (r: Self::State)
        requires
            self.inv(),
        ensures
            self.state_fits(bits_of(*s), r),
    ;

    fn fast_prefix_hash(&self, s: &Str, state: &Self::State, ind: usize) -> (r: Self::HashType)
        requires
            self.inv(),
            self.state_fits(bits_of(*s), *state),
            ind <= bits_of(*s).len(),
    ;
}

/// A hash family whose members can be drawn for a given table size, with a
/// base coprime to it.
pub trait ParametricHash: Hash {
    fn new_parametric(domain_size: usize, seed: u64) -> (r: Self)
        requires
            2 <= domain_size <= 0xFFFFFFFFusize,
        ensures
            r.inv(),
    ;

    fn new_random(domain_size: usize) -> (r: Self)
        requires
            2 <= domain_size <= 0xFFFFFFFFusize,
        ensures
            r.inv(),
    ;
}

/// Rank support over the bitwise OR of two parallel bit arrays: after
/// `build` on the arrays, `rank(i)` counts the set OR-bits below `i`.
pub trait RankStructure: Sized {
    /// The structure answers for these two arrays.
    spec fn inv(&self, a: Seq<bool>, b: Seq<bool>) -> bool;

    fn new() -> Self;

    fn build(&mut self, v0: &Str, v1: &Str)
        requires
            // machine cap: keeps block and superblock sizing within the word
            1 <= bits_of(*v0).len() <= 0x10000000,
            bits_of(*v0).len() == bits_of(*v1).len(),
        ensures
            final(self).inv(bits_of(*v0), bits_of(*v1)),
    ;

    fn rank(&self, ind: usize, v0: &Str, v1: &Str) -> (r: usize)
        requires
            self.inv(bits_of(*v0), bits_of(*v1)),
            ind < bits_of(*v0).len(),
            bits_of(*v0).len() == bits_of(*v1).len(),
        ensures
            r == or_rank(bits_of(*v0), bits_of(*v1), ind as int),
    ;
}

/// A build-once dictionary from bit strings to values, with prefix lookup.
pub trait StaticDict<V>: Sized {
    type State;

    spec fn inv(&self) -> bool;

    /// The keys the dictionary was built for.
    spec fn keys(&self) -> Seq<Seq<bool>>;

    /// The values supplied at build time, in key order.
    spec fn vals(&self) -> Seq<V>;

    /// The precomputed state belongs to this dictionary on this string.
    spec fn state_fits(&self, key: Seq<bool>, state: Self::State) -> bool;

    fn new() -> (r: Self)
        ensures
            r.inv(),
            r.keys().len() == 0,
    ;

    fn build(&mut self, keys: &Vec<Str>, values: &Vec<V>) -> (ok: bool)
        requires
            keys@.len() == values@.len(),
            // machine cap: keeps the over-provisioned table-size product
            // inside a 32-bit word and the table within the rank structure's
            // array cap
            keys@.len() <= 0x2000000,
        ensures
            ok ==> final(self).inv() && final(self).keys() == strs_of(keys@) && final(self).vals()
                == values@,
            keys@.len() == 0 ==> ok,
            !ok ==> *final(self) == *old(self),
    ;

    fn get(&self, key: &Str) -> (r: Option<&V>)
        requires
            self.inv(),
        ensures
            forall|i: int|
                0 <= i < self.keys().len() && self.keys()[i] == bits_of(*key) ==> (match r {
                    Some(v) => *v == self.vals()[i],
                    None => false,
                }),
    ;

    fn compute_state(&self, key: &Str) -> (r: Self::State)
        requires
            self.inv(),
        ensures
            self.state_fits(bits_of(*key), r),
    ;

    fn fast_prefix_get(&self, key: &Str, state: &Self::State, ind: usize) -> (r: Option<&V>)
        requires
            self.inv(),
            ind <= bits_of(*key).len(),
            self.state_fits(bits_of(*key), *state),
        ensures
            forall|i: int|
                0 <= i < self.keys().len() && self.keys()[i] == bits_of(*key).take(ind as int)
                    ==> (match r {
                    Some(v) => *v == self.vals()[i],
                    None => false,
                }),
    ;
}

/// The common face of the four tries: build once over a prefix-free set,
/// then ask for neighbours, prefixes and ranges. Whatever the search
/// inside, the answers are exact: the predecessor and successor are the
/// bracketing members of the stored set, and the prefix and range answers
/// hold if and only if a witness exists.
pub trait Trie: Sized {
    /// The structure is ready to be queried.
    spec fn inv(&self) -> bool;

    /// The stored bit sequences.
    spec fn contents(&self) -> Seq<Seq<bool>>;

    fn build(&mut self, v: &Vec<Str>)
        requires
            prefix_free(strs_of(v@)),
            // machine cap: depth arithmetic of the searches fits the word
            forall|q: int| 0 <= q < v@.len() ==> (#[trigger] strs_of(v@)[q]).len() < 0x40000000,
        ensures
            final(self).inv(),
            sorted_strs(final(self).contents()),
            final(self).contents().to_multiset() == strs_of(v@).to_multiset(),
    ;

    fn pred_query(&self, x: &Str) -> (r: Option<Str>)
        requires
            self.inv(),
            bits_of(*x).len() < 0x40000000,
        ensures
            is_pred_answer(self.contents(), bits_of(*x), opt_bits(r)),
    ;

    fn succ_query(&self, x: &Str) -> (r: Option<Str>)
        requires
            self.inv(),
            bits_of(*x).len() < 0x40000000,
        ensures
            is_succ_answer(self.contents(), bits_of(*x), opt_bits(r)),
    ;

    fn ex_pref_query(&self, x: &Str) -> (r: bool)
        requires
            self.inv(),
            bits_of(*x).len() < 0x40000000,
        ensures
            is_pref_answer(self.contents(), bits_of(*x), r),
    ;

    fn ex_range_query(&self, x: &Str, y: &Str) -> (r: bool)
        requires
            self.inv(),
            bits_of(*x).len() < 0x40000000,
            bits_of(*y).len() < 0x40000000,
        ensures
            is_range_answer(self.contents(), bits_of(*x), bits_of(*y), r),
    ;
}

/// The bit sequences of an optional answer string.
pub open spec fn opt_bits(r: Option<Str>) -> Option<Seq<bool>> {
    match r {
        Some(s) => Some(bits_of(s)),
        None => None,
    }
}

/// `r` is the predecessor of `x` in `m`: the greatest member strictly below
/// `x`, or nothing when no member is below `x`.
pub open spec fn is_pred_answer(m: Seq<Seq<bool>>, x: Seq<bool>, r: Option<Seq<bool>>) -> bool {
    match r {
        Some(p) => m.contains(p) && lex_lt(p, x) && forall|t: Seq<bool>|
            #[trigger] m.contains(t) && lex_lt(t, x) ==> lex_le(t, p),
        None => forall|t: Seq<bool>| #[trigger] m.contains(t) ==> !lex_lt(t, x),
    }
}

/// `r` is the successor of `x` in `m`: the least member at least `x`, or
/// nothing when no member reaches `x`.
pub open spec fn is_succ_answer(m: Seq<Seq<bool>>, x: Seq<bool>, r: Option<Seq<bool>>) -> bool {
    match r {
        Some(s) => m.contains(s) && lex_le(x, s) && forall|t: Seq<bool>|
            #[trigger] m.contains(t) && lex_le(x, t) ==> lex_le(s, t),
        None => forall|t: Seq<bool>| #[trigger] m.contains(t) ==> !lex_le(x, t),
    }
}

/// `r` says whether `x` is a prefix of some member of `m`.
pub open spec fn is_pref_answer(m: Seq<Seq<bool>>, x: Seq<bool>, r: bool) -> bool {
    r <==> exists|t: Seq<bool>| #[trigger] m.contains(t) && is_prefix(x, t)
}

/// `r` says whether some member of `m` lies strictly between `x` and `y`.
pub open spec fn is_range_answer(m: Seq<Seq<bool>>, x: Seq<bool>, y: Seq<bool>, r: bool) -> bool {
    r <==> exists|t: Seq<bool>| #[trigger] m.contains(t) && lex_lt(x, t) && lex_lt(t, y)
}

/// If the successor of `x` does not extend `x`, nothing in the set does:
/// members extending `x` are at least `x` but at most any such extension.
pub proof fn lemma_no_pref_witness(m: Seq<Seq<bool>>, x: Seq<bool>, s: Seq<bool>)
    requires
        is_succ_answer(m, x, Some(s)),
        !is_prefix(x, s),
    ensures
        forall|t: Seq<bool>| #[trigger] m.contains(t) ==> !is_prefix(x, t),
{
    assert forall|t: Seq<bool>| #[trigger] m.contains(t) implies !is_prefix(x, t) by {
        if is_prefix(x, t) {
            crate::bitstr::lemma_prefix_le(x, t);
            assert(lex_le(s, t));
            crate::bitstr::lemma_between_prefix(x, s, t);
        }
    }
}

/// With no successor at all, nothing extends `x` either.
pub proof fn lemma_no_succ_no_pref(m: Seq<Seq<bool>>, x: Seq<bool>)
    requires
        is_succ_answer(m, x, None),
    ensures
        forall|t: Seq<bool>| #[trigger] m.contains(t) ==> !is_prefix(x, t),
{
    assert forall|t: Seq<bool>| #[trigger] m.contains(t) implies !is_prefix(x, t) by {
        if is_prefix(x, t) {
            crate::bitstr::lemma_prefix_le(x, t);
        }
    }
}

/// The predecessor answer is unique: two answers meeting the contract for
/// the same set and query are equal.
pub proof fn lemma_pred_answer_unique(
    m: Seq<Seq<bool>>,
    x: Seq<bool>,
    r1: Option<Seq<bool>>,
    r2: Option<Seq<bool>>,
)
    requires
        is_pred_answer(m, x, r1),
        is_pred_answer(m, x, r2),
    ensures
        r1 == r2,
{
    match (r1, r2) {
        (Some(p1), Some(p2)) => {
            assert(lex_le(p1, p2) && lex_le(p2, p1));
            lemma_lex_total(p1, p2);
        },
        (Some(p1), None) => {
            assert(m.contains(p1) && lex_lt(p1, x));
        },
        (None, Some(p2)) => {
            assert(m.contains(p2) && lex_lt(p2, x));
        },
        (None, None) => {},
    }
}

/// The successor answer is unique as well.
pub proof fn lemma_succ_answer_unique(
    m: Seq<Seq<bool>>,
    x: Seq<bool>,
    r1: Option<Seq<bool>>,
    r2: Option<Seq<bool>>,
)
    requires
        is_succ_answer(m, x, r1),
        is_succ_answer(m, x, r2),
    ensures
        r1 == r2,
{
    match (r1, r2) {
        (Some(s1), Some(s2)) => {
            assert(lex_le(s1, s2) && lex_le(s2, s1));
            lemma_lex_total(s1, s2);
        },
        (Some(s1), None) => {
            assert(m.contains(s1) && lex_le(x, s1));
        },
        (None, Some(s2)) => {
            assert(m.contains(s2) && lex_le(x, s2));
        },
        (None, None) => {},
    }
}

/// In a sorted set, two adjacent members that bracket `x` are its exact
/// predecessor and successor.
pub proof fn lemma_bracket_exact(m: Seq<Seq<bool>>, k: int, x: Seq<bool>)
    requires
        sorted_strs(m),
        1 <= k < m.len(),
        lex_lt(m[k - 1], x),
        lex_le(x, m[k]),
    ensures
        is_pred_answer(m, x, Some(m[k - 1])),
        is_succ_answer(m, x, Some(m[k])),
{
    assert(m.contains(m[k - 1]));
    assert(m.contains(m[k]));
    assert forall|t: Seq<bool>| #[trigger] m.contains(t) && lex_lt(t, x) implies lex_le(
        t,
        m[k - 1],
    ) by {
        let j = choose|j: int| 0 <= j < m.len() && m[j] == t;
        if j >= k {
            if j > k {
                assert(lex_le(m[k], m[j]));
            }
            assert(lex_le(m[k], t));
            crate::bitstr::lemma_lex_le_trans(x, m[k], t);
            crate::bitstr::lemma_lex_le_lt_trans(x, t, x);
            lemma_lex_total(x, x);
        } else {
            if j < k - 1 {
                assert(lex_le(m[j], m[k - 1]));
            }
            assert(lex_le(t, m[k - 1]));
        }
    }
    assert forall|t: Seq<bool>| #[trigger] m.contains(t) && lex_le(x, t) implies lex_le(
        m[k],
        t,
    ) by {
        let j = choose|j: int| 0 <= j < m.len() && m[j] == t;
        if j < k {
            if j < k - 1 {
                assert(lex_le(m[j], m[k - 1]));
            }
            assert(lex_le(t, m[k - 1]));
            crate::bitstr::lemma_lex_le_lt_trans(t, m[k - 1], x);
            crate::bitstr::lemma_lex_le_lt_trans(x, t, x);
            lemma_lex_total(x, x);
        } else {
            if j > k {
                assert(lex_le(m[k], m[j]));
            }
            assert(lex_le(m[k], t));
        }
    }
}

/// A sorted set whose least member is at least `x` has that member as
/// successor of `x`, and no predecessor.
pub proof fn lemma_low_end_exact(m: Seq<Seq<bool>>, x: Seq<bool>)
    requires
        sorted_strs(m),
        m.len() > 0,
        lex_le(x, m[0]),
    ensures
        is_pred_answer(m, x, None),
        is_succ_answer(m, x, Some(m[0])),
{
    assert(m.contains(m[0]));
    assert forall|t: Seq<bool>| #[trigger] m.contains(t) implies !lex_lt(t, x) && lex_le(
        m[0],
        t,
    ) by {
        let j = choose|j: int| 0 <= j < m.len() && m[j] == t;
        if j > 0 {
            assert(lex_le(m[0], m[j]));
        }
        assert(lex_le(m[0], t));
        crate::bitstr::lemma_lex_le_trans(x, m[0], t);
        if lex_lt(t, x) {
            crate::bitstr::lemma_lex_le_lt_trans(x, t, x);
            lemma_lex_total(x, x);
        }
    }
}

/// A sorted set whose greatest member is below `x` has that member as
/// predecessor of `x`, and no successor.
pub proof fn lemma_high_end_exact(m: Seq<Seq<bool>>, x: Seq<bool>)
    requires
        sorted_strs(m),
        m.len() > 0,
        lex_lt(m[m.len() - 1], x),
    ensures
        is_pred_answer(m, x, Some(m[m.len() - 1])),
        is_succ_answer(m, x, None),
{
    let last = m.len() - 1;
    assert(m.contains(m[last]));
    assert forall|t: Seq<bool>| #[trigger] m.contains(t) implies lex_le(t, m[last]) && !lex_le(
        x,
        t,
    ) by {
        let j = choose|j: int| 0 <= j < m.len() && m[j] == t;
        if j < last {
            assert(lex_le(m[j], m[last]));
        }
        assert(lex_le(t, m[last]));
        crate::bitstr::lemma_lex_le_lt_trans(t, m[last], x);
        if lex_le(x, t) {
            crate::bitstr::lemma_lex_le_lt_trans(x, t, x);
            lemma_lex_total(x, x);
        }
    }
}

} // verus!
