//! The sorted-scan baseline: a vector of bit strings kept in lexicographic
//! order, answering every query by a linear scan. Its contracts pin the
//! answers exactly, which makes it the oracle the fancier structures are
//! tested against.

use vstd::prelude::*;
use crate::bitstr::{
    Str, bits_of, lex_lt, lex_le, is_prefix, strs_of, sorted_strs, clone_strs, sort_strs,
    str_lt, str_len, str_eq, str_clone, get_substr, lemma_lex_total,
    lemma_lex_le_lt_trans, lemma_lex_lt_le_trans,
};
use crate::traits::{opt_bits, is_pred_answer, is_succ_answer, is_pref_answer, is_range_answer};

verus! {

/// A trie that is just a sorted vector.
pub struct NaiveTrie {
    v: Vec<Str>,
}

impl NaiveTrie {
    /// The stored bit sequences, in order.
    pub closed spec fn model(&self) -> Seq<Seq<bool>> {
        strs_of(self.v@)
    }

    pub closed spec fn wf(&self) -> bool {
        sorted_strs(self.model())
    }

    pub fn new() -> (r: NaiveTrie)
        ensures
            r.wf(),
            r.model() == Seq::<Seq<bool>>::empty(),
    {
        let r = NaiveTrie { v: Vec::new() };
        proof {
            assert(r.model() =~= Seq::<Seq<bool>>::empty());
        }
        r
    }

    /// Stores a sorted copy of the given strings, replacing any previous
    /// content.
    pub fn build(&mut self, v: &Vec<Str>)
        ensures
            final(self).wf(),
            final(self).model().to_multiset() == strs_of(v@).to_multiset(),
            final(self).model().len() == v@.len(),
    {
        let mut x = clone_strs(v);
        sort_strs(&mut x);
        self.v = x;
    }

    /// The greatest stored string strictly below `x`, scanning in order.
    pub fn pred_query(&self, x: &Str) -> (r: Option<Str>)
        requires
            self.wf(),
        ensures
            is_pred_answer(self.model(), bits_of(*x), opt_bits(r)),
    {
        let ghost m = self.model();
        let ghost xb = bits_of(*x);
        let n = self.v.len();
        let mut i: usize = 0;
        while i < n && str_lt(&self.v[i], x)
            invariant
                0 <= i <= n,
                n == self.v@.len(),
                self.wf(),
                m == self.model(),
                xb == bits_of(*x),
                forall|j: int| 0 <= j < i ==> lex_lt(#[trigger] m[j], xb),
            decreases n - i,
        {
            i += 1;
        }
        if i == 0 {
            proof {
                assert forall|t: Seq<bool>| #[trigger] m.contains(t) implies !lex_lt(t, xb) by {
                    let j = choose|j: int| 0 <= j < m.len() && m[j] == t;
                    assert(!lex_lt(m[0], xb));
                    lemma_lex_total(m[0], xb);
                    if j > 0 && lex_lt(t, xb) {
                        lemma_lex_lt_le_trans(t, xb, m[0]);
                        lemma_lex_total(m[0], m[j]);
                    }
                }
            }
            None
        } else {
            let r = str_clone(&self.v[i - 1]);
            proof {
                assert(m.contains(m[i - 1]));
                assert forall|t: Seq<bool>|
                    #[trigger] m.contains(t) && lex_lt(t, xb) implies lex_le(t, m[i - 1]) by {
                    let j = choose|j: int| 0 <= j < m.len() && m[j] == t;
                    if j >= i {
                        // everything from i on is at least x
                        assert(!lex_lt(m[i as int], xb));
                        lemma_lex_total(m[i as int], xb);
                        if j > i {
                            lemma_lex_le_lt_trans(m[i as int], m[j], xb);
                            lemma_lex_total(m[j], xb);
                        }
                    }
                }
            }
            Some(r)
        }
    }

    /// The least stored string at least `x`, scanning in order.
    pub fn succ_query(&self, x: &Str) -> (r: Option<Str>)
        requires
            self.wf(),
        ensures
            is_succ_answer(self.model(), bits_of(*x), opt_bits(r)),
    {
        let ghost m = self.model();
        let ghost xb = bits_of(*x);
        let n = self.v.len();
        let mut i: usize = 0;
        while i < n && str_lt(&self.v[i], x)
            invariant
                0 <= i <= n,
                n == self.v@.len(),
                self.wf(),
                m == self.model(),
                xb == bits_of(*x),
                forall|j: int| 0 <= j < i ==> lex_lt(#[trigger] m[j], xb),
            decreases n - i,
        {
            i += 1;
        }
        if i < n {
            let r = str_clone(&self.v[i]);
            proof {
                assert(m.contains(m[i as int]));
                lemma_lex_total(m[i as int], xb);
                assert forall|t: Seq<bool>|
                    #[trigger] m.contains(t) && lex_le(xb, t) implies lex_le(m[i as int], t) by {
                    let j = choose|j: int| 0 <= j < m.len() && m[j] == t;
                    if j < i {
                        lemma_lex_total(m[j], xb);
                    }
                }
            }
            Some(r)
        } else {
            proof {
                assert forall|t: Seq<bool>| #[trigger] m.contains(t) implies !lex_le(xb, t) by {
                    let j = choose|j: int| 0 <= j < m.len() && m[j] == t;
                    lemma_lex_total(xb, m[j]);
                }
            }
            None
        }
    }

    /// Whether `x` is a prefix of some stored string.
    pub fn ex_pref_query(&self, x: &Str) -> (r: bool)
        requires
            self.wf(),
        ensures
            is_pref_answer(self.model(), bits_of(*x), r),
    {
        let ghost m = self.model();
        let ghost xb = bits_of(*x);
        let s_opt = self.succ_query(x);
        match s_opt {
            Some(s) => {
                let sl = str_len(&s);
                let xl = str_len(x);
                if sl < xl {
                    proof {
                        crate::traits::lemma_no_pref_witness(m, xb, bits_of(s));
                    }
                    false
                } else {
                    let pref = get_substr(&s, 0, xl);
                    let r = str_eq(&pref, x);
                    proof {
                        if r {
                            assert(is_prefix(xb, bits_of(s)));
                            assert(m.contains(bits_of(s)));
                        } else {
                            assert(!is_prefix(xb, bits_of(s)));
                            crate::traits::lemma_no_pref_witness(m, xb, bits_of(s));
                        }
                    }
                    r
                }
            },
            None => {
                proof {
                    assert forall|t: Seq<bool>|
                        #[trigger] m.contains(t) implies !is_prefix(xb, t) by {
                        if is_prefix(xb, t) {
                            crate::bitstr::lemma_prefix_le(xb, t);
                        }
                    }
                }
                false
            },
        }
    }

    /// Whether some stored string lies strictly between `x` and `y`.
    pub fn ex_range_query(&self, x: &Str, y: &Str) -> (r: bool)
        requires
            self.wf(),
        ensures
            is_range_answer(self.model(), bits_of(*x), bits_of(*y), r),
    {
        let ghost m = self.model();
        let ghost xb = bits_of(*x);
        let ghost yb = bits_of(*y);
        let n = self.v.len();
        let mut i: usize = 0;
        while i < n && !str_lt(x, &self.v[i])
            invariant
                0 <= i <= n,
                n == self.v@.len(),
                self.wf(),
                m == self.model(),
                xb == bits_of(*x),
                forall|j: int| 0 <= j < i ==> !lex_lt(xb, #[trigger] m[j]),
            decreases n - i,
        {
            i += 1;
        }
        if i < n {
            let r = str_lt(&self.v[i], y);
            proof {
                if r {
                    assert(m.contains(m[i as int]));
                } else {
                    assert forall|t: Seq<bool>|
                        !(#[trigger] m.contains(t) && lex_lt(xb, t) && lex_lt(t, yb)) by {
                        if m.contains(t) && lex_lt(xb, t) && lex_lt(t, yb) {
                            let j = choose|j: int| 0 <= j < m.len() && m[j] == t;
                            assert(j >= i);
                            if j > i {
                                lemma_lex_le_lt_trans(m[i as int], m[j], yb);
                            }
                        }
                    }
                }
            }
            r
        } else {
            proof {
                assert forall|t: Seq<bool>|
                    !(#[trigger] m.contains(t) && lex_lt(xb, t) && lex_lt(t, yb)) by {
                    if m.contains(t) && lex_lt(xb, t) {
                        let j = choose|j: int| 0 <= j < m.len() && m[j] == t;
                    }
                }
            }
            false
        }
    }
}

impl crate::traits::Trie for NaiveTrie {
    open spec fn inv(&self) -> bool {
        self.wf()
    }

    open spec fn contents(&self) -> Seq<Seq<bool>> {
        self.model()
    }

    fn build(&mut self, v: &Vec<Str>) {
        NaiveTrie::build(self, v)
    }

    fn pred_query(&self, x: &Str) -> (r: Option<Str>) {
        NaiveTrie::pred_query(self, x)
    }

    fn succ_query(&self, x: &Str) -> (r: Option<Str>) {
        NaiveTrie::succ_query(self, x)
    }

    fn ex_pref_query(&self, x: &Str) -> (r: bool) {
        NaiveTrie::ex_pref_query(self, x)
    }

    fn ex_range_query(&self, x: &Str, y: &Str) -> (r: bool) {
        NaiveTrie::ex_range_query(self, x, y)
    }
}

} // verus!
