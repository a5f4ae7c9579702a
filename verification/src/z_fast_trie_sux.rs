//! The succinct z-fast trie: the same compacted trie, arena and jump
//! pointers as the plain variant, but the handle index is the minimal
//! perfect hash dictionary instead of a hash map, probed through constant
//! time prefix hashes. Query answers are certified against the sorted
//! leaf list exactly as in the plain variant, so they are exact whatever
//! the dictionary probes returned.

use vstd::prelude::*;
use crate::bitstr::{
    Str, bits_of, str_new, str_len, str_eq, str_clone, str_push, get_substr, strs_of,
    sorted_strs, clone_strs, sort_strs, lex_lt, lex_le, is_prefix,
};
use crate::bitwise_operations::get_fattest;
use crate::static_dicts::MinimalPerfectHashStaticDict;
use crate::traits::{
    opt_bits, is_pred_answer, is_succ_answer, is_pref_answer, is_range_answer,
    lemma_no_pref_witness, lemma_no_succ_no_pref,
};
use crate::z_fast_trie::{
    TrieNode, NodeKind, arena_wf, node_wf, extent_of, prefix_free,
    build_tree, precalc_jumps, get_rind, node_extent, exit_to_answers, exit_prefix,
    lemma_multiset_props,
};

verus! {

/// The z-fast trie whose handle index is a minimal perfect hash dictionary
/// over the handles themselves.
pub struct ZFastTrieSux {
    root: Option<usize>,
    nodes: Vec<TrieNode>,
    z_map: MinimalPerfectHashStaticDict<usize>,
    gmodel: Ghost<Seq<Seq<bool>>>,
}

impl ZFastTrieSux {
    /// The stored bit sequences, in sorted order.
    pub closed spec fn model(&self) -> Seq<Seq<bool>> {
        self.gmodel@
    }

    pub closed spec fn wf(&self) -> bool {
        &&& arena_wf(self.nodes@, self.gmodel@)
        &&& crate::z_fast_trie::list_wf(self.nodes@)
        &&& crate::z_fast_trie::leaves_of(self.nodes@) == self.gmodel@
        &&& sorted_strs(self.gmodel@)
        &&& self.nodes@.len() == (if self.gmodel@.len() == 0 {
            0int
        } else {
            2 * self.gmodel@.len() - 1
        })
        &&& (match self.root {
            Some(r) => r < self.nodes@.len(),
            None => self.nodes@.len() == 0,
        })
        &&& self.z_map.wf()
    }

    pub fn new() -> (r: ZFastTrieSux)
        ensures
            r.wf(),
            r.model().len() == 0,
    {
        let r = ZFastTrieSux {
            root: None,
            nodes: Vec::new(),
            z_map: MinimalPerfectHashStaticDict::new(),
            gmodel: Ghost(Seq::empty()),
        };
        proof {
            assert(crate::z_fast_trie::leaves_of(r.nodes@) =~= Seq::<Seq<bool>>::empty());
        }
        r
    }

    /// Builds the trie over the given strings, which must be prefix-free
    /// (hence distinct); they are sorted internally. The handle dictionary
    /// is built afterwards from every internal node's handle; if that
    /// cannot be done, the index stays empty and every probe misses, which
    /// the checked queries tolerate.
    pub fn build(&mut self, v: &Vec<Str>)
        requires
            prefix_free(strs_of(v@)),
            // lengths stay below 2^30 so that depth arithmetic (the doubling
            // step of the fat search, the per-bit hash state) fits the word
            // on any target
            forall|q: int| 0 <= q < v@.len() ==> (#[trigger] strs_of(v@)[q]).len() < 0x40000000,
        ensures
            final(self).wf(),
            sorted_strs(final(self).model()),
            final(self).model().to_multiset() == strs_of(v@).to_multiset(),
    {
        let mut x = clone_strs(v);
        sort_strs(&mut x);
        let ghost model = strs_of(x@);
        proof {
            lemma_multiset_props(strs_of(x@), strs_of(v@));
            crate::z_fast_trie::lemma_multiset_len_bound(strs_of(x@), strs_of(v@));
        }
        self.nodes = Vec::new();
        self.z_map = MinimalPerfectHashStaticDict::new();
        self.root = None;
        proof {
            self.gmodel@ = model;
        }
        let n = x.len();
        if n == 0 {
            proof {
                assert(crate::z_fast_trie::leaves_of(self.nodes@) =~= model);
            }
            return ;
        }
        let mut last: Option<usize> = None;
        proof {
            assert(forall|q: int| 0 <= q < model.len() ==> model.contains(#[trigger] model[q]));
            assert(forall|q1: int, q2: int|
                0 <= q1 < n && 0 <= q2 < n ==> (#[trigger] model[q1]).take(0)
                    =~= (#[trigger] model[q2]).take(0));
        }
        let ghost pre = self.nodes@;
        let (root_opt, _) = build_tree(&mut self.nodes, &x, 0, 0, n, &mut last, Ghost(model));
        proof {
            assert(crate::z_fast_trie::leaves_of(pre) + model.subrange(0, n as int) =~= model);
        }
        self.root = root_opt;
        match self.root {
            Some(rt) => {
                precalc_jumps(&mut self.nodes, rt, Ghost(model));
            },
            None => {},
        }
        // every internal node contributes its handle as a key, itself as
        // the value
        let mut keys: Vec<Str> = Vec::new();
        let mut vals: Vec<usize> = Vec::new();
        let total = self.nodes.len();
        let mut i: usize = 0;
        while i < total
            invariant
                i <= total,
                total == self.nodes@.len(),
                arena_wf(self.nodes@, model),
                keys@.len() == vals@.len(),
            decreases total - i,
        {
            proof {
                assert(node_wf(self.nodes@, model, i as int));
            }
            let node = &self.nodes[i];
            match &node.kind {
                NodeKind::Internal { to_leaf, .. } => {
                    let rind = get_rind(&self.nodes, i, Ghost(model));
                    let lind = self.nodes[i].lind;
                    let f = get_fattest(rind, lind);
                    proof {
                        assert(node_wf(self.nodes@, model, *to_leaf as int));
                    }
                    let tnode = &self.nodes[*to_leaf];
                    let handle = match &tnode.kind {
                        NodeKind::Leaf { extent, .. } => get_substr(extent, 0, f),
                        NodeKind::Internal { .. } => str_new(),
                    };
                    keys.push(handle);
                    vals.push(i);
                },
                NodeKind::Leaf { .. } => {},
            }
            i = i + 1;
        }
        if keys.len() <= 0x2000000 {
            let ok = self.z_map.build(&keys, &vals);
            if !ok {
                self.z_map = MinimalPerfectHashStaticDict::new();
            }
        }
    }

    /// One probing pass of the fat binary search over the dictionary.
    fn locate_exit_or_parex_prob(&self, x: &Str) -> (r: Option<usize>)
        requires
            self.wf(),
            bits_of(*x).len() < 0x40000000,
        ensures
            r matches Some(i) ==> i < self.nodes@.len(),
    {
        let mut res: Option<usize> = None;
        let mut a: usize = 0;
        let mut b: usize = str_len(x);
        let state = self.z_map.compute_state(x);
        let mut m: usize = crate::bitwise_operations::calc(b);
        let mut fuel: usize = 80;
        let mut done = false;
        while !done && fuel > 0 && a <= b
            invariant
                self.wf(),
                b <= bits_of(*x).len(),
                self.z_map.state_ok(bits_of(*x), state),
                res matches Some(i) ==> i < self.nodes@.len(),
            decreases fuel,
        {
            fuel = fuel - 1;
            if a == 0 || (m & (a - 1)) != (m & b) {
                let f64v: u64 = (m as u64) & (b as u64);
                proof {
                    assert((m as u64) & (b as u64) <= (b as u64)) by (bit_vector);
                }
                let f: usize = if a == 0 {
                    0
                } else {
                    f64v as usize
                };
                let beta = self.z_map.fast_prefix_get(x, &state, f);
                let mut hit: Option<usize> = None;
                match beta {
                    Some(ni_ref) => {
                        let ni = *ni_ref;
                        if ni < self.nodes.len() {
                            hit = Some(ni);
                        }
                    },
                    None => {},
                }
                match hit {
                    Some(ni) => {
                        let rind = get_rind(&self.nodes, ni, Ghost(self.gmodel@));
                        let lind = self.nodes[ni].lind;
                        if get_fattest(rind, lind) == f {
                            proof {
                                assert(node_wf(self.nodes@, self.gmodel@, ni as int));
                                assert(rind < 0x40000000) by {
                                    match self.nodes@[ni as int].kind {
                                        NodeKind::Internal { to_leaf, .. } => {
                                            assert(node_wf(
                                                self.nodes@,
                                                self.gmodel@,
                                                to_leaf as int,
                                            ));
                                        },
                                        NodeKind::Leaf { .. } => {},
                                    }
                                }
                            }
                            a = rind + 1;
                            res = Some(ni);
                        } else {
                            if f == 0 {
                                done = true;
                            } else {
                                b = f - 1;
                            }
                        }
                    },
                    None => {
                        if f == 0 {
                            done = true;
                        } else {
                            b = f - 1;
                        }
                    },
                }
            }
            m = m >> 1;
        }
        res
    }

    /// The verifying pass: a hit counts only when its extent literally is
    /// a proper prefix of `x`.
    fn locate_parex(&self, x: &Str) -> (r: Option<usize>)
        requires
            self.wf(),
            bits_of(*x).len() < 0x40000000,
        ensures
            r matches Some(i) ==> i < self.nodes@.len() && is_prefix(
                extent_of(self.nodes@, i as int),
                bits_of(*x),
            ) && extent_of(self.nodes@, i as int).len() < bits_of(*x).len(),
    {
        let mut res: Option<usize> = None;
        let mut a: usize = 0;
        let mut b: usize = str_len(x);
        let xl = str_len(x);
        let state = self.z_map.compute_state(x);
        let mut m: usize = crate::bitwise_operations::calc(b);
        let mut fuel: usize = 80;
        let mut done = false;
        while !done && fuel > 0 && a <= b
            invariant
                self.wf(),
                b <= bits_of(*x).len(),
                xl == bits_of(*x).len(),
                self.z_map.state_ok(bits_of(*x), state),
                res matches Some(i) ==> i < self.nodes@.len() && is_prefix(
                    extent_of(self.nodes@, i as int),
                    bits_of(*x),
                ) && extent_of(self.nodes@, i as int).len() < bits_of(*x).len(),
            decreases fuel,
        {
            fuel = fuel - 1;
            if a == 0 || (m & (a - 1)) != (m & b) {
                let f64v: u64 = (m as u64) & (b as u64);
                proof {
                    assert((m as u64) & (b as u64) <= (b as u64)) by (bit_vector);
                }
                let f: usize = if a == 0 {
                    0
                } else {
                    f64v as usize
                };
                let beta = self.z_map.fast_prefix_get(x, &state, f);
                let mut hit: Option<usize> = None;
                match beta {
                    Some(ni_ref) => {
                        let ni = *ni_ref;
                        if ni < self.nodes.len() {
                            hit = Some(ni);
                        }
                    },
                    None => {},
                }
                let mut advanced = false;
                match hit {
                    Some(ni) => {
                        let extent = node_extent(&self.nodes, ni, Ghost(self.gmodel@));
                        let rind = get_rind(&self.nodes, ni, Ghost(self.gmodel@));
                        let lind = self.nodes[ni].lind;
                        let el = str_len(&extent);
                        if el < xl && get_fattest(rind, lind) == f {
                            let xpref = get_substr(x, 0, el);
                            if str_eq(&extent, &xpref) {
                                proof {
                                    assert(node_wf(self.nodes@, self.gmodel@, ni as int));
                                    assert(rind < 0x40000000) by {
                                        match self.nodes@[ni as int].kind {
                                            NodeKind::Internal { to_leaf, .. } => {
                                                assert(node_wf(
                                                    self.nodes@,
                                                    self.gmodel@,
                                                    to_leaf as int,
                                                ));
                                            },
                                            NodeKind::Leaf { .. } => {},
                                        }
                                    }
                                }
                                a = rind + 1;
                                res = Some(ni);
                                advanced = true;
                            }
                        }
                        if !advanced {
                            if f == 0 {
                                done = true;
                            } else {
                                b = f - 1;
                            }
                        }
                    },
                    None => {
                        if f == 0 {
                            done = true;
                        } else {
                            b = f - 1;
                        }
                    },
                }
            }
            m = m >> 1;
        }
        res
    }

    /// The probing pass, re-checked through the candidate's handle.
    fn locate_exit_or_parex(&self, x: &Str) -> (r: Option<usize>)
        requires
            self.wf(),
            bits_of(*x).len() < 0x40000000,
        ensures
            r matches Some(i) ==> i < self.nodes@.len(),
    {
        let res = self.locate_exit_or_parex_prob(x);
        let handle = match res {
            Some(i) => {
                proof {
                    assert(node_wf(self.nodes@, self.gmodel@, i as int));
                }
                let rind = get_rind(&self.nodes, i, Ghost(self.gmodel@));
                let lind = self.nodes[i].lind;
                let f = get_fattest(rind, lind);
                let node = &self.nodes[i];
                match &node.kind {
                    NodeKind::Internal { to_leaf, .. } => {
                        proof {
                            assert(node_wf(self.nodes@, self.gmodel@, *to_leaf as int));
                        }
                        let tnode = &self.nodes[*to_leaf];
                        match &tnode.kind {
                            NodeKind::Leaf { extent, .. } => get_substr(extent, 0, f),
                            NodeKind::Internal { .. } => str_new(),
                        }
                    },
                    NodeKind::Leaf { .. } => str_new(),
                }
            },
            None => str_new(),
        };
        let hl = str_len(&handle);
        let xl = str_len(x);
        let min: usize = if xl < hl {
            xl
        } else {
            hl
        };
        let xpref = get_substr(x, 0, min);
        if !str_eq(&handle, &xpref) {
            self.locate_parex(x)
        } else {
            res
        }
    }

    /// One more step from the parex candidate.
    fn locate_exit_from_node(&self, x: &Str, sigma: Option<usize>) -> (r: Option<usize>)
        requires
            self.wf(),
            self.root is Some,
            sigma matches Some(i) ==> i < self.nodes@.len(),
        ensures
            r matches Some(i) ==> i < self.nodes@.len(),
            r is Some,
    {
        match sigma {
            Some(ni) => {
                proof {
                    assert(node_wf(self.nodes@, self.gmodel@, ni as int));
                }
                let extent = node_extent(&self.nodes, ni, Ghost(self.gmodel@));
                let el = str_len(&extent);
                let xl = str_len(x);
                if el < xl {
                    let xpref = get_substr(x, 0, el);
                    if str_eq(&extent, &xpref) {
                        let node = &self.nodes[ni];
                        match &node.kind {
                            NodeKind::Internal { left, right, .. } => {
                                if !crate::bitstr::str_get(x, el) {
                                    Some(*left)
                                } else {
                                    Some(*right)
                                }
                            },
                            NodeKind::Leaf { .. } => Some(ni),
                        }
                    } else {
                        Some(ni)
                    }
                } else {
                    Some(ni)
                }
            },
            None => {
                match self.root {
                    Some(rt) => Some(rt),
                    None => None,
                }
            },
        }
    }

    /// The exit node of `x`.
    fn locate_exit(&self, x: &Str) -> (r: Option<usize>)
        requires
            self.wf(),
            bits_of(*x).len() < 0x40000000,
        ensures
            r matches Some(i) ==> i < self.nodes@.len(),
            self.root is Some <==> r is Some,
    {
        match self.root {
            None => None,
            Some(_) => {
                let res = self.locate_exit_or_parex(x);
                self.locate_exit_from_node(x, res)
            },
        }
    }

    /// The greatest stored string strictly below `x`, or nothing when no
    /// stored string is below `x`.
    pub fn pred_query(&self, x: &Str) -> (r: Option<Str>)
        requires
            self.wf(),
            bits_of(*x).len() < 0x40000000,
        ensures
            is_pred_answer(self.model(), bits_of(*x), opt_bits(r)),
    {
        let eta_opt = self.locate_exit(x);
        exit_to_answers(&self.nodes, eta_opt, x, Ghost(self.gmodel@)).0
    }

    /// The least stored string at least `x`, or nothing when no stored
    /// string reaches `x`.
    pub fn succ_query(&self, x: &Str) -> (r: Option<Str>)
        requires
            self.wf(),
            bits_of(*x).len() < 0x40000000,
        ensures
            is_succ_answer(self.model(), bits_of(*x), opt_bits(r)),
    {
        let eta_opt = self.locate_exit(x);
        exit_to_answers(&self.nodes, eta_opt, x, Ghost(self.gmodel@)).1
    }

    /// Whether `x` is a prefix of some stored string: the exit node gives
    /// a fast positive, and the successor of `x` decides the rest, since
    /// any stored extension of `x` sorts between `x` and its successor.
    pub fn ex_pref_query(&self, x: &Str) -> (r: bool)
        requires
            self.wf(),
            bits_of(*x).len() < 0x40000000,
        ensures
            is_pref_answer(self.model(), bits_of(*x), r),
    {
        let ghost xb = bits_of(*x);
        let eta_opt = self.locate_exit(x);
        let pr = exit_prefix(&self.nodes, eta_opt, x, Ghost(self.gmodel@));
        match pr {
            Some(s) => {
                let sl = str_len(&s);
                let xl = str_len(x);
                if sl == xl && str_eq(&s, x) {
                    proof {
                        let t = choose|t: Seq<bool>|
                            #[trigger] self.gmodel@.contains(t) && bits_of(s).len() <= t.len()
                                && bits_of(s) == t.take(bits_of(s).len() as int);
                        assert(self.model().contains(t) && is_prefix(xb, t));
                    }
                    return true;
                }
            },
            None => {},
        }
        let sc = exit_to_answers(&self.nodes, eta_opt, x, Ghost(self.gmodel@)).1;
        match sc {
            Some(s) => {
                let xl = str_len(x);
                if str_len(&s) >= xl {
                    let p = get_substr(&s, 0, xl);
                    let r = str_eq(&p, x);
                    proof {
                        assert(bits_of(s).subrange(0, xl as int) =~= bits_of(s).take(xl as int));
                        if r {
                            assert(is_prefix(xb, bits_of(s)));
                        } else {
                            assert(!is_prefix(xb, bits_of(s)));
                            lemma_no_pref_witness(self.gmodel@, xb, bits_of(s));
                        }
                    }
                    r
                } else {
                    proof {
                        assert(!is_prefix(xb, bits_of(s)));
                        lemma_no_pref_witness(self.gmodel@, xb, bits_of(s));
                    }
                    false
                }
            },
            None => {
                proof {
                    lemma_no_succ_no_pref(self.gmodel@, xb);
                }
                false
            },
        }
    }

    /// Whether some stored string lies strictly between `x` and `y`: the
    /// members strictly above `x` are exactly those at least `x` extended
    /// by a zero bit, so the successor of that extension decides.
    pub fn ex_range_query(&self, x: &Str, y: &Str) -> (r: bool)
        requires
            self.wf(),
            bits_of(*x).len() < 0x40000000,
            bits_of(*y).len() < 0x40000000,
        ensures
            is_range_answer(self.model(), bits_of(*x), bits_of(*y), r),
    {
        let ghost xb = bits_of(*x);
        let ghost yb = bits_of(*y);
        let mut x0 = str_clone(x);
        str_push(&mut x0, false);
        let ghost x0b = bits_of(x0);
        let eta_opt = if str_len(&x0) < 0x40000000 {
            self.locate_exit(&x0)
        } else {
            None
        };
        let sc = exit_to_answers(&self.nodes, eta_opt, &x0, Ghost(self.gmodel@)).1;
        match sc {
            Some(s) => {
                let ghost sb = bits_of(s);
                let r = crate::bitstr::str_lt(&s, y);
                proof {
                    if r {
                        assert(is_prefix(xb, x0b)) by {
                            assert(x0b.take(xb.len() as int) =~= xb);
                        }
                        crate::bitstr::lemma_prefix_le(xb, x0b);
                        crate::bitstr::lemma_lex_lt_le_trans(xb, x0b, sb);
                        assert(self.model().contains(sb) && lex_lt(xb, sb) && lex_lt(sb, yb));
                    } else {
                        assert forall|t: Seq<bool>|
                            !(#[trigger] self.model().contains(t) && lex_lt(xb, t) && lex_lt(
                                t,
                                yb,
                            )) by {
                            if self.model().contains(t) && lex_lt(xb, t) && lex_lt(t, yb) {
                                crate::bitstr::lemma_gt_implies_ge_push0(xb, t);
                                assert(lex_le(sb, t));
                                crate::bitstr::lemma_lex_le_lt_trans(sb, t, yb);
                            }
                        }
                    }
                }
                r
            },
            None => {
                proof {
                    assert forall|t: Seq<bool>|
                        !(#[trigger] self.model().contains(t) && lex_lt(xb, t) && lex_lt(
                            t,
                            yb,
                        )) by {
                        if self.model().contains(t) && lex_lt(xb, t) {
                            crate::bitstr::lemma_gt_implies_ge_push0(xb, t);
                        }
                    }
                }
                false
            },
        }
    }
}

impl crate::traits::Trie for ZFastTrieSux {
    open spec fn inv(&self) -> bool {
        self.wf()
    }

    open spec fn contents(&self) -> Seq<Seq<bool>> {
        self.model()
    }

    fn build(&mut self, v: &Vec<Str>) {
        ZFastTrieSux::build(self, v)
    }

    fn pred_query(&self, x: &Str) -> (r: Option<Str>) {
        ZFastTrieSux::pred_query(self, x)
    }

    fn succ_query(&self, x: &Str) -> (r: Option<Str>) {
        ZFastTrieSux::succ_query(self, x)
    }

    fn ex_pref_query(&self, x: &Str) -> (r: bool) {
        ZFastTrieSux::ex_pref_query(self, x)
    }

    fn ex_range_query(&self, x: &Str, y: &Str) -> (r: bool) {
        ZFastTrieSux::ex_range_query(self, x, y)
    }
}

} // verus!
