//! A static dictionary backed by a minimal perfect hash function.
//!
//! `build` draws three hash functions into the table, peels the resulting
//! 3-uniform hypergraph, and derives a two-bit weight per table vertex so
//! that every key's three weights select one of its three hash positions;
//! ranking that position over the OR of the weight arrays yields the key's
//! slot. The construction re-checks, before accepting an attempt, that the
//! computed slots really are distinct and in range, so a successful build
//! proves the minimal-perfect-hash property rather than assuming it.

use vstd::prelude::*;
use crate::bitstr::{Str, bits_of, str_new, str_len, str_get, str_set, str_resize, strs_of};
use crate::hashes::RollingHash;
use crate::rank_structures::{JacobsonRank, or_rank, lemma_or_rank_bounds};

verus! {

/// The weight stored at a table vertex: two bits, value 0 when unset.
pub open spec fn weight_at(w0: Seq<bool>, w1: Seq<bool>, ind: int) -> int {
    let x = (if w0[ind] {
        1int
    } else {
        0int
    }) + 2 * (if w1[ind] {
        1int
    } else {
        0int
    });
    if x == 0 {
        0
    } else {
        x - 1
    }
}

/// Addition of weights, reduced modulo three on the fly.
pub open spec fn add_mod3(x: int, y: int) -> int {
    if x + y >= 3 {
        x + y - 3
    } else {
        x + y
    }
}

/// The table slot that a key hashes to: the three digests pick up three
/// weights, their sum modulo three selects one digest, and the rank of that
/// digest over the OR of the weight arrays is the slot.
pub open spec fn slot_spec(
    h0: RollingHash,
    h1: RollingHash,
    h2: RollingHash,
    w0: Seq<bool>,
    w1: Seq<bool>,
    key: Seq<bool>,
) -> int {
    let d0 = h0.hash_at(key, key.len() as int);
    let d1 = h1.hash_at(key, key.len() as int);
    let d2 = h2.hash_at(key, key.len() as int);
    let s = add_mod3(add_mod3(add_mod3(0, weight_at(w0, w1, d0)), weight_at(w0, w1, d1)),
        weight_at(w0, w1, d2));
    let dsel = if s == 0 {
        d0
    } else if s == 1 {
        d1
    } else {
        d2
    };
    or_rank(w0, w1, dsel)
}

/// The weight at `ind`, read off the two bit arrays.
fn weight_of(w0: &Str, w1: &Str, ind: usize) -> (r: usize)
    requires
        ind < bits_of(*w0).len(),
        bits_of(*w0).len() == bits_of(*w1).len(),
    ensures
        r == weight_at(bits_of(*w0), bits_of(*w1), ind as int),
        r <= 2,
{
    let b0: usize = if str_get(w0, ind) {
        1
    } else {
        0
    };
    let b1: usize = if str_get(w1, ind) {
        2
    } else {
        0
    };
    let x = b0 + b1;
    if x == 0 {
        0
    } else {
        x - 1
    }
}

/// Writes weight `val` at `ind`: both bits clear mean 0, else the encoded
/// value is one more than the weight.
fn set_weight(w0: &mut Str, w1: &mut Str, ind: usize, val: usize)
    requires
        val < 3,
        ind < bits_of(*old(w0)).len(),
        ind < bits_of(*old(w1)).len(),
    ensures
        bits_of(*final(w0)) == bits_of(*old(w0)).update(ind as int, (val + 1) % 2 == 1),
        bits_of(*final(w1)) == bits_of(*old(w1)).update(ind as int, val + 1 >= 2),
{
    str_set(w0, ind, (val + 1) % 2 == 1);
    str_set(w1, ind, val + 1 >= 2);
}

/// The dictionary: three hashes, a weight pair per table vertex, a rank
/// structure over the OR of the weights, and the stored values.
pub struct MinimalPerfectHashStaticDict<V> {
    size: usize,
    h0: RollingHash,
    h1: RollingHash,
    h2: RollingHash,
    table: Vec<V>,
    w0: Str,
    w1: Str,
    ds: JacobsonRank,
    gkeys: Ghost<Seq<Seq<bool>>>,
    gvals: Ghost<Seq<V>>,
}

impl<V: Copy> MinimalPerfectHashStaticDict<V> {
    /// The keys the dictionary was built for.
    pub closed spec fn spec_keys(&self) -> Seq<Seq<bool>> {
        self.gkeys@
    }

    /// The values supplied at build time, in key order.
    pub closed spec fn spec_vals(&self) -> Seq<V> {
        self.gvals@
    }

    /// The slot assigned to a bit sequence by the built hash functions.
    pub closed spec fn spec_slot(&self, key: Seq<bool>) -> int {
        slot_spec(self.h0, self.h1, self.h2, bits_of(self.w0), bits_of(self.w1), key)
    }

    /// A built dictionary: every key's slot is in `[0, keys.len())`, slots
    /// of distinct keys differ, and each key's slot holds its value.
    pub closed spec fn wf(&self) -> bool {
        &&& self.gkeys@.len() == self.gvals@.len()
        &&& (self.table@.len() == 0 <==> self.gkeys@.len() == 0)
        &&& self.h0.wf() && self.h1.wf() && self.h2.wf()
        &&& (self.gkeys@.len() > 0 ==> {
            &&& self.h0.modulo == self.table@.len()
            &&& self.h1.modulo == self.table@.len()
            &&& self.h2.modulo == self.table@.len()
            &&& bits_of(self.w0).len() == self.table@.len()
            &&& bits_of(self.w1).len() == self.table@.len()
            &&& 101 <= self.table@.len() <= 0x10000000
            &&& self.ds.matches(bits_of(self.w0), bits_of(self.w1))
            &&& self.gkeys@.len() <= self.table@.len()
            &&& forall|i: int|
                0 <= i < self.gkeys@.len() ==> 0 <= self.spec_slot(#[trigger] self.gkeys@[i])
                    < self.gkeys@.len() && self.table@[self.spec_slot(self.gkeys@[i])]
                    == self.gvals@[i]
            &&& forall|i: int, j: int|
                0 <= i < j < self.gkeys@.len() ==> self.spec_slot(#[trigger] self.gkeys@[i])
                    != self.spec_slot(#[trigger] self.gkeys@[j])
        })
    }

    /// An empty dictionary.
    pub fn new() -> (r: MinimalPerfectHashStaticDict<V>)
        ensures
            r.wf(),
            r.spec_keys().len() == 0,
    {
        MinimalPerfectHashStaticDict {
            size: 0,
            h0: RollingHash::new(),
            h1: RollingHash::new(),
            h2: RollingHash::new(),
            table: Vec::new(),
            w0: str_new(),
            w1: str_new(),
            ds: JacobsonRank::new(),
            gkeys: Ghost(Seq::empty()),
            gvals: Ghost(Seq::empty()),
        }
    }

    /// Builds the dictionary for the given keys and values, retrying with
    /// fresh hash seeds until an attempt both peels completely and assigns
    /// distinct in-range slots to all keys. Returns whether an attempt
    /// succeeded within the retry budget.
    pub fn build(&mut self, keys: &Vec<Str>, values: &Vec<V>) -> (ok: bool)
        requires
            keys@.len() == values@.len(),
            // the key cap keeps the 1.23-fold table-size product inside a
            // 32-bit word, and the table itself inside the rank structure's
            // array cap
            keys@.len() <= 0x2000000,
        ensures
            ok ==> final(self).wf() && final(self).spec_keys() == strs_of(keys@)
                && final(self).spec_vals() == values@,
            keys@.len() == 0 ==> ok,
            !ok ==> *final(self) == *old(self),
    {
        let ghost kb = strs_of(keys@);
        let nk = keys.len();
        if nk == 0 {
            self.size = 0;
            self.table = Vec::new();
            self.w0 = str_new();
            self.w1 = str_new();
            self.h0 = RollingHash::new();
            self.h1 = RollingHash::new();
            self.h2 = RollingHash::new();
            proof {
                self.gkeys@ = kb;
                self.gvals@ = values@;
                assert(kb =~= Seq::<Seq<bool>>::empty());
            }
            return true;
        }
        let size = (nk * 123 + 99) / 100;
        let n: usize = if size < 101 {
            101
        } else {
            size
        };
        proof {
            assert(nk <= size) by {
                vstd::arithmetic::div_mod::lemma_div_is_ordered(
                    (nk * 100) as int,
                    (nk * 123 + 99) as int,
                    100,
                );
                vstd::arithmetic::div_mod::lemma_div_multiples_vanish(nk as int, 100);
                vstd::arithmetic::mul::lemma_mul_is_commutative(nk as int, 100);
            }
        }
        // the retry budget is generous: with the polynomial family over an
        // even table size, digests of coprime (hence odd) bases always
        // agree modulo two, so collision-free attempts are rare but cheap
        let mut attempt: usize = 0;
        while attempt < 1024
            invariant
                *self == *old(self),
                1 <= nk <= 0x2000000,
                nk <= n,
                101 <= n <= 0x10000000,
                nk == keys@.len(),
                keys@.len() == values@.len(),
                kb == strs_of(keys@),
            decreases 1024 - attempt,
        {
            let seed = (attempt as u64) * 6;
            let h0 = RollingHash::new_parametric(n, seed);
            let h1 = RollingHash::new_parametric(n, seed + 2);
            let h2 = RollingHash::new_parametric(n, seed + 4);

            // the three hash positions of every key
            let mut e0: Vec<usize> = Vec::new();
            let mut e1: Vec<usize> = Vec::new();
            let mut e2: Vec<usize> = Vec::new();
            let mut i: usize = 0;
            while i < nk
                invariant
                    i <= nk,
                    nk == keys@.len(),
                    kb == strs_of(keys@),
                    h0.wf() && h1.wf() && h2.wf(),
                    h0.modulo == n && h1.modulo == n && h2.modulo == n,
                    e0@.len() == i && e1@.len() == i && e2@.len() == i,
                    forall|j: int|
                        0 <= j < i ==> #[trigger] e0@[j] == h0.hash_at(kb[j], kb[j].len() as int)
                            && e1@[j] == h1.hash_at(kb[j], kb[j].len() as int) && e2@[j]
                            == h2.hash_at(kb[j], kb[j].len() as int),
                    forall|j: int| 0 <= j < i ==> #[trigger] e0@[j] < n,
                    forall|j: int| 0 <= j < i ==> #[trigger] e1@[j] < n,
                    forall|j: int| 0 <= j < i ==> #[trigger] e2@[j] < n,
                decreases nk - i,
            {
                let kl = str_len(&keys[i]);
                proof {
                    h0.lemma_hash_bounds(kb[i as int], kl as int);
                    h1.lemma_hash_bounds(kb[i as int], kl as int);
                    h2.lemma_hash_bounds(kb[i as int], kl as int);
                }
                e0.push(h0.slow_prefix_hash(&keys[i], kl));
                e1.push(h1.slow_prefix_hash(&keys[i], kl));
                e2.push(h2.slow_prefix_hash(&keys[i], kl));
                i = i + 1;
            }

            // a degenerate hyperedge forces a retry
            let mut degenerate = false;
            let mut i2: usize = 0;
            while i2 < nk
                invariant
                    i2 <= nk,
                    e0@.len() == nk && e1@.len() == nk && e2@.len() == nk,
                decreases nk - i2,
            {
                if e0[i2] == e1[i2] || e0[i2] == e2[i2] || e1[i2] == e2[i2] {
                    degenerate = true;
                }
                i2 = i2 + 1;
            }
            if !degenerate {
                // incidence lists: the edges touching each table vertex
                let mut incid: Vec<Vec<usize>> = Vec::new();
                let mut v: usize = 0;
                while v < n
                    invariant
                        v <= n,
                        incid@.len() == v,
                        forall|u: int| 0 <= u < v ==> (#[trigger] incid@[u])@.len() == 0,
                    decreases n - v,
                {
                    incid.push(Vec::new());
                    v = v + 1;
                }
                let mut deg: Vec<usize> = Vec::new();
                let mut i3: usize = 0;
                while i3 < nk
                    invariant
                        i3 <= nk,
                        e0@.len() == nk && e1@.len() == nk && e2@.len() == nk,
                        forall|j: int| 0 <= j < nk ==> #[trigger] e0@[j] < n,
                        forall|j: int| 0 <= j < nk ==> #[trigger] e1@[j] < n,
                        forall|j: int| 0 <= j < nk ==> #[trigger] e2@[j] < n,
                        incid@.len() == n,
                        forall|u: int, t: int|
                            0 <= u < n && 0 <= t < incid@[u]@.len() ==> #[trigger] incid@[u]@[t]
                                < nk,
                    decreases nk - i3,
                {
                    let p0 = e0[i3];
                    incid[p0].push(i3);
                    let p1 = e1[i3];
                    incid[p1].push(i3);
                    let p2 = e2[i3];
                    incid[p2].push(i3);
                    i3 = i3 + 1;
                }
                let mut v2: usize = 0;
                let mut queue: Vec<usize> = Vec::new();
                while v2 < n
                    invariant
                        v2 <= n,
                        incid@.len() == n,
                        deg@.len() == v2,
                        forall|u: int| 0 <= u < queue@.len() ==> #[trigger] queue@[u] < n,
                    decreases n - v2,
                {
                    let d = incid[v2].len();
                    deg.push(d);
                    if d == 1 {
                        queue.push(v2);
                    }
                    v2 = v2 + 1;
                }

                // peel vertices of degree one, remembering which corner of
                // which edge was pendant; a fuel bound keeps the loop total
                let mut alive: Vec<bool> = Vec::new();
                let mut i4: usize = 0;
                while i4 < nk
                    invariant
                        i4 <= nk,
                        alive@.len() == i4,
                    decreases nk - i4,
                {
                    alive.push(true);
                    i4 = i4 + 1;
                }
                let mut peel_ind: Vec<usize> = Vec::new();
                let mut peel_edge: Vec<usize> = Vec::new();
                let mut cont: usize = 0;
                let mut fuel: usize = n + 4 * nk + 4;
                while queue.len() > 0 && fuel > 0
                    invariant
                        incid@.len() == n,
                        deg@.len() == n,
                        alive@.len() == nk,
                        e0@.len() == nk && e1@.len() == nk && e2@.len() == nk,
                        forall|j: int| 0 <= j < nk ==> #[trigger] e0@[j] < n,
                        forall|j: int| 0 <= j < nk ==> #[trigger] e1@[j] < n,
                        forall|j: int| 0 <= j < nk ==> #[trigger] e2@[j] < n,
                        forall|u: int, t: int|
                            0 <= u < n && 0 <= t < incid@[u]@.len() ==> #[trigger] incid@[u]@[t]
                                < nk,
                        forall|u: int| 0 <= u < queue@.len() ==> #[trigger] queue@[u] < n,
                        peel_ind@.len() == peel_edge@.len(),
                        forall|u: int| 0 <= u < peel_ind@.len() ==> #[trigger] peel_ind@[u] <= 2,
                        forall|u: int| 0 <= u < peel_edge@.len() ==> #[trigger] peel_edge@[u] < nk,
                        cont <= nk,
                    decreases fuel,
                {
                    fuel = fuel - 1;
                    let node = queue.pop().unwrap();
                    if deg[node] == 1 && cont < nk {
                        // find an edge still alive at this vertex
                        let lst_len = incid[node].len();
                        let mut t: usize = 0;
                        let mut found: bool = false;
                        let mut edge: usize = 0;
                        while t < lst_len && !found
                            invariant
                                t <= lst_len,
                                incid@.len() == n,
                                node < n,
                                lst_len == incid@[node as int]@.len(),
                                alive@.len() == nk,
                                forall|u: int, tt: int|
                                    0 <= u < n && 0 <= tt < incid@[u]@.len() ==> #[trigger] incid@[u]@[tt]
                                        < nk,
                                found ==> edge < nk,
                            decreases lst_len - t,
                        {
                            let cand = incid[node][t];
                            if alive[cand] {
                                found = true;
                                edge = cand;
                            }
                            t = t + 1;
                        }
                        if found {
                            let ind: usize = if e0[edge] == node {
                                0
                            } else if e1[edge] == node {
                                1
                            } else {
                                2
                            };
                            peel_ind.push(ind);
                            peel_edge.push(edge);
                            alive[edge] = false;
                            cont = cont + 1;
                            let q0 = e0[edge];
                            if deg[q0] > 0 {
                                let nd = deg[q0] - 1;
                                deg[q0] = nd;
                                if nd == 1 {
                                    queue.push(q0);
                                }
                            }
                            let q1 = e1[edge];
                            if deg[q1] > 0 {
                                let nd = deg[q1] - 1;
                                deg[q1] = nd;
                                if nd == 1 {
                                    queue.push(q1);
                                }
                            }
                            let q2 = e2[edge];
                            if deg[q2] > 0 {
                                let nd = deg[q2] - 1;
                                deg[q2] = nd;
                                if nd == 1 {
                                    queue.push(q2);
                                }
                            }
                        }
                    }
                }
                if cont == nk {
                    // replay the peeling in reverse, fixing each pendant
                    // vertex's weight so the edge's weights sum to its
                    // pendant corner's index modulo three
                    let mut w0 = str_new();
                    let mut w1 = str_new();
                    str_resize(&mut w0, n, false);
                    str_resize(&mut w1, n, false);
                    proof {
                        assert(bits_of(w0) =~= Seq::new(n as nat, |i: int| false));
                        assert(bits_of(w1) =~= Seq::new(n as nat, |i: int| false));
                    }
                    let total = peel_edge.len();
                    let mut r: usize = total;
                    while r > 0
                        invariant
                            r <= total,
                            total == peel_edge@.len(),
                            peel_ind@.len() == total,
                            forall|u: int| 0 <= u < total ==> #[trigger] peel_ind@[u] <= 2,
                            forall|u: int| 0 <= u < total ==> #[trigger] peel_edge@[u] < nk,
                            e0@.len() == nk && e1@.len() == nk && e2@.len() == nk,
                            forall|j: int| 0 <= j < nk ==> #[trigger] e0@[j] < n,
                            forall|j: int| 0 <= j < nk ==> #[trigger] e1@[j] < n,
                            forall|j: int| 0 <= j < nk ==> #[trigger] e2@[j] < n,
                            bits_of(w0).len() == n,
                            bits_of(w1).len() == n,
                        decreases r,
                    {
                        r = r - 1;
                        let ind = peel_ind[r];
                        let edge = peel_edge[r];
                        let mut sum: usize = 0;
                        sum = sum + weight_of(&w0, &w1, e0[edge]);
                        if sum >= 3 {
                            sum = sum - 3;
                        }
                        sum = sum + weight_of(&w0, &w1, e1[edge]);
                        if sum >= 3 {
                            sum = sum - 3;
                        }
                        sum = sum + weight_of(&w0, &w1, e2[edge]);
                        if sum >= 3 {
                            sum = sum - 3;
                        }
                        if sum > 0 {
                            sum = 3 - sum;
                        }
                        sum = sum + ind;
                        if sum >= 3 {
                            sum = sum - 3;
                        }
                        let pendant = if ind == 0 {
                            e0[edge]
                        } else if ind == 1 {
                            e1[edge]
                        } else {
                            e2[edge]
                        };
                        set_weight(&mut w0, &mut w1, pendant, sum);
                    }

                    let mut ds = JacobsonRank::new();
                    ds.build(&w0, &w1);

                    // fill the table, and verify as we go that the slots
                    // really form an injection into the key range
                    let mut table: Vec<V> = Vec::new();
                    let first = values[0];
                    while table.len() < n
                        invariant
                            table@.len() <= n,
                        decreases n - table@.len(),
                    {
                        table.push(first);
                    }
                    let mut seen: Vec<bool> = Vec::new();
                    let mut i5: usize = 0;
                    while i5 < nk
                        invariant
                            i5 <= nk,
                            seen@.len() == i5,
                            forall|u: int| 0 <= u < i5 ==> !(#[trigger] seen@[u]),
                        decreases nk - i5,
                    {
                        seen.push(false);
                        i5 = i5 + 1;
                    }
                    let mut ok2 = true;
                    let mut i6: usize = 0;
                    while i6 < nk && ok2
                        invariant
                            i6 <= nk,
                            nk <= n,
                            nk == keys@.len(),
                            keys@.len() == values@.len(),
                            kb == strs_of(keys@),
                            h0.wf() && h1.wf() && h2.wf(),
                            h0.modulo == n && h1.modulo == n && h2.modulo == n,
                            e0@.len() == nk && e1@.len() == nk && e2@.len() == nk,
                            forall|j: int|
                                0 <= j < nk ==> #[trigger] e0@[j] == h0.hash_at(
                                    kb[j],
                                    kb[j].len() as int,
                                ) && e1@[j] == h1.hash_at(kb[j], kb[j].len() as int) && e2@[j]
                                    == h2.hash_at(kb[j], kb[j].len() as int),
                            forall|j: int| 0 <= j < nk ==> #[trigger] e0@[j] < n,
                            forall|j: int| 0 <= j < nk ==> #[trigger] e1@[j] < n,
                            forall|j: int| 0 <= j < nk ==> #[trigger] e2@[j] < n,
                            bits_of(w0).len() == n,
                            bits_of(w1).len() == n,
                            ds.matches(bits_of(w0), bits_of(w1)),
                            table@.len() == n,
                            seen@.len() == nk,
                            ok2 ==> forall|j: int|
                                0 <= j < i6 ==> 0 <= slot_spec(
                                    h0,
                                    h1,
                                    h2,
                                    bits_of(w0),
                                    bits_of(w1),
                                    #[trigger] kb[j],
                                ) < nk,
                            ok2 ==> forall|j: int|
                                0 <= j < i6 ==> #[trigger] table@[slot_spec(
                                    h0,
                                    h1,
                                    h2,
                                    bits_of(w0),
                                    bits_of(w1),
                                    kb[j],
                                )] == values@[j],
                            ok2 ==> forall|j: int|
                                0 <= j < i6 ==> #[trigger] seen@[slot_spec(
                                    h0,
                                    h1,
                                    h2,
                                    bits_of(w0),
                                    bits_of(w1),
                                    kb[j],
                                )],
                            ok2 ==> forall|j1: int, j2: int|
                                #![trigger kb[j1], kb[j2]]
                                0 <= j1 < j2 < i6 ==> slot_spec(
                                    h0,
                                    h1,
                                    h2,
                                    bits_of(w0),
                                    bits_of(w1),
                                    kb[j1],
                                ) != slot_spec(h0, h1, h2, bits_of(w0), bits_of(w1), kb[j2]),
                        decreases nk - i6,
                    {
                        let d0 = e0[i6];
                        let d1 = e1[i6];
                        let d2 = e2[i6];
                        let mut sum: usize = 0;
                        sum = sum + weight_of(&w0, &w1, d0);
                        if sum >= 3 {
                            sum = sum - 3;
                        }
                        sum = sum + weight_of(&w0, &w1, d1);
                        if sum >= 3 {
                            sum = sum - 3;
                        }
                        sum = sum + weight_of(&w0, &w1, d2);
                        if sum >= 3 {
                            sum = sum - 3;
                        }
                        let dsel = if sum == 0 {
                            d0
                        } else if sum == 1 {
                            d1
                        } else {
                            d2
                        };
                        let pos = ds.rank(dsel, &w0, &w1);
                        proof {
                            lemma_or_rank_bounds(bits_of(w0), bits_of(w1), dsel as int);
                            assert(pos == slot_spec(
                                h0,
                                h1,
                                h2,
                                bits_of(w0),
                                bits_of(w1),
                                kb[i6 as int],
                            ));
                        }
                        if pos >= nk {
                            ok2 = false;
                        } else if seen[pos] {
                            ok2 = false;
                        } else {
                            seen[pos] = true;
                            table[pos] = values[i6];
                        }
                        i6 = i6 + 1;
                    }
                    if ok2 {
                        self.size = size;
                        self.h0 = h0;
                        self.h1 = h1;
                        self.h2 = h2;
                        self.table = table;
                        self.w0 = w0;
                        self.w1 = w1;
                        self.ds = ds;
                        proof {
                            self.gkeys@ = kb;
                            self.gvals@ = values@;
                        }
                        proof {
                            assert forall|i: int, j: int|
                                0 <= i < j < kb.len() implies self.spec_slot(#[trigger] kb[i])
                                != self.spec_slot(#[trigger] kb[j]) by {
                                let si = self.spec_slot(kb[i]);
                                let sj = self.spec_slot(kb[j]);
                                if si == sj {
                                    // when key j was placed, key i's slot was
                                    // already marked seen
                                }
                            }
                        }
                        return true;
                    }
                }
            }
            attempt = attempt + 1;
        }
        false
    }

    /// The value stored for `key`. For a key that was built in, this is
    /// exactly the value supplied with it; for any other key it is whatever
    /// sits in the colliding slot.
    pub fn get(&self, key: &Str) -> (r: Option<&V>)
        requires
            self.wf(),
        ensures
            self.spec_keys().len() > 0 ==> r is Some,
            forall|i: int|
                0 <= i < self.spec_keys().len() && self.spec_keys()[i] == bits_of(*key) ==> (match r {
                    Some(v) => *v == self.spec_vals()[i],
                    None => false,
                }),
    {
        if self.table.len() == 0 {
            return None;
        }
        proof {
            self.h0.lemma_hash_bounds(bits_of(*key), bits_of(*key).len() as int);
            self.h1.lemma_hash_bounds(bits_of(*key), bits_of(*key).len() as int);
            self.h2.lemma_hash_bounds(bits_of(*key), bits_of(*key).len() as int);
        }
        let kl = str_len(key);
        let d0 = self.h0.slow_prefix_hash(key, kl);
        let d1 = self.h1.slow_prefix_hash(key, kl);
        let d2 = self.h2.slow_prefix_hash(key, kl);
        let mut sum: usize = 0;
        sum = sum + weight_of(&self.w0, &self.w1, d0);
        if sum >= 3 {
            sum = sum - 3;
        }
        sum = sum + weight_of(&self.w0, &self.w1, d1);
        if sum >= 3 {
            sum = sum - 3;
        }
        sum = sum + weight_of(&self.w0, &self.w1, d2);
        if sum >= 3 {
            sum = sum - 3;
        }
        let dsel = if sum == 0 {
            d0
        } else if sum == 1 {
            d1
        } else {
            d2
        };
        let pos = self.ds.rank(dsel, &self.w0, &self.w1);
        proof {
            lemma_or_rank_bounds(bits_of(self.w0), bits_of(self.w1), dsel as int);
            assert(pos == self.spec_slot(bits_of(*key)));
        }
        Some(&self.table[pos])
    }

    /// The three hash states belong to this dictionary's hashes on `key`.
    pub closed spec fn state_ok(
        &self,
        key: Seq<bool>,
        state: ((Vec<usize>, Vec<usize>), (Vec<usize>, Vec<usize>), (Vec<usize>, Vec<usize>)),
    ) -> bool {
        &&& self.h0.state_inv(key, state.0)
        &&& self.h1.state_inv(key, state.1)
        &&& self.h2.state_inv(key, state.2)
    }

    /// The hash states of the key under all three hash functions.
    pub fn compute_state(&self, key: &Str) -> (r: (
        (Vec<usize>, Vec<usize>),
        (Vec<usize>, Vec<usize>),
        (Vec<usize>, Vec<usize>),
    ))
        requires
            self.wf(),
        ensures
            self.state_ok(bits_of(*key), r),
    {
        (self.h0.compute_state(key), self.h1.compute_state(key), self.h2.compute_state(key))
    }

    /// Like `get`, but on the prefix of `key` of length `ind`, with all
    /// hashes read off the precomputed states in constant time.
    pub fn fast_prefix_get(
        &self,
        key: &Str,
        state: &((Vec<usize>, Vec<usize>), (Vec<usize>, Vec<usize>), (Vec<usize>, Vec<usize>)),
        ind: usize,
    ) -> (r: Option<&V>)
        requires
            self.wf(),
            ind <= bits_of(*key).len(),
            self.state_ok(bits_of(*key), *state),
        ensures
            self.spec_keys().len() > 0 ==> r is Some,
            forall|i: int|
                0 <= i < self.spec_keys().len() && self.spec_keys()[i] == bits_of(*key).take(
                    ind as int,
                ) ==> (match r {
                    Some(v) => *v == self.spec_vals()[i],
                    None => false,
                }),
    {
        if self.table.len() == 0 {
            return None;
        }
        let ghost kb = bits_of(*key);
        let ghost pb = bits_of(*key).take(ind as int);
        proof {
            self.h0.lemma_hash_bounds(kb, ind as int);
            self.h1.lemma_hash_bounds(kb, ind as int);
            self.h2.lemma_hash_bounds(kb, ind as int);
            self.h0.lemma_hash_prefix(pb, kb, ind as int);
            self.h1.lemma_hash_prefix(pb, kb, ind as int);
            self.h2.lemma_hash_prefix(pb, kb, ind as int);
        }
        let d0 = self.h0.fast_prefix_hash(key, &state.0, ind);
        let d1 = self.h1.fast_prefix_hash(key, &state.1, ind);
        let d2 = self.h2.fast_prefix_hash(key, &state.2, ind);
        let mut sum: usize = 0;
        sum = sum + weight_of(&self.w0, &self.w1, d0);
        if sum >= 3 {
            sum = sum - 3;
        }
        sum = sum + weight_of(&self.w0, &self.w1, d1);
        if sum >= 3 {
            sum = sum - 3;
        }
        sum = sum + weight_of(&self.w0, &self.w1, d2);
        if sum >= 3 {
            sum = sum - 3;
        }
        let dsel = if sum == 0 {
            d0
        } else if sum == 1 {
            d1
        } else {
            d2
        };
        let pos = self.ds.rank(dsel, &self.w0, &self.w1);
        proof {
            lemma_or_rank_bounds(bits_of(self.w0), bits_of(self.w1), dsel as int);
            assert(pos == self.spec_slot(pb));
        }
        Some(&self.table[pos])
    }
}

/// Some key's slot is `p`.
pub open spec fn slot_covered<V: Copy>(d: &MinimalPerfectHashStaticDict<V>, p: int) -> bool {
    exists|i: int|
        0 <= i < d.spec_keys().len() && d.spec_slot(#[trigger] d.spec_keys()[i]) == p
}

/// The minimal perfect hash property: on a built dictionary, the slots of
/// the keys are pairwise distinct, lie in the key range, and cover all of
/// it, so they form a bijection onto that range.
pub proof fn lemma_minimal_perfect<V: Copy>(d: &MinimalPerfectHashStaticDict<V>)
    requires
        d.wf(),
    ensures
        forall|i: int|
            0 <= i < d.spec_keys().len() ==> 0 <= d.spec_slot(#[trigger] d.spec_keys()[i])
                < d.spec_keys().len(),
        forall|i: int, j: int|
            0 <= i < j < d.spec_keys().len() ==> d.spec_slot(#[trigger] d.spec_keys()[i])
                != d.spec_slot(#[trigger] d.spec_keys()[j]),
        forall|p: int| 0 <= p < d.spec_keys().len() ==> #[trigger] slot_covered(d, p),
{
    let nk = d.spec_keys().len() as int;
    if nk > 0 {
        let ss = Seq::new(nk as nat, |i: int| d.spec_slot(d.spec_keys()[i]));
        assert(ss.no_duplicates()) by {
            assert forall|i: int, j: int| 0 <= i < j < nk implies ss[i] != ss[j] by {
                assert(d.spec_slot(d.spec_keys()[i]) != d.spec_slot(d.spec_keys()[j]));
            }
        }
        ss.unique_seq_to_set();
        let rng = vstd::set_lib::set_int_range(0, nk);
        vstd::set_lib::lemma_int_range(0, nk);
        assert(ss.to_set().subset_of(rng)) by {
            assert forall|p: int| ss.to_set().contains(p) implies rng.contains(p) by {
                let i = choose|i: int| 0 <= i < ss.len() && ss[i] == p;
                assert(0 <= d.spec_slot(d.spec_keys()[i]) < nk);
            }
        }
        vstd::set_lib::lemma_subset_equality(ss.to_set(), rng);
        assert forall|p: int| 0 <= p < nk implies #[trigger] slot_covered(d, p) by {
            assert(rng.contains(p));
            assert(ss.to_set().contains(p));
            assert(ss.contains(p));
            let i = choose|i: int| 0 <= i < ss.len() && ss[i] == p;
            assert(d.spec_slot(d.spec_keys()[i]) == p);
        }
    }
}

impl<V: Copy> crate::traits::StaticDict<V> for MinimalPerfectHashStaticDict<V> {
    type State = ((Vec<usize>, Vec<usize>), (Vec<usize>, Vec<usize>), (Vec<usize>, Vec<usize>));

    open spec fn inv(&self) -> bool {
        self.wf()
    }

    open spec fn keys(&self) -> Seq<Seq<bool>> {
        self.spec_keys()
    }

    open spec fn vals(&self) -> Seq<V> {
        self.spec_vals()
    }

    open spec fn state_fits(
        &self,
        key: Seq<bool>,
        state: ((Vec<usize>, Vec<usize>), (Vec<usize>, Vec<usize>), (Vec<usize>, Vec<usize>)),
    ) -> bool {
        self.state_ok(key, state)
    }

    fn new() -> (r: Self) {
        MinimalPerfectHashStaticDict::new()
    }

    fn build(&mut self, keys: &Vec<Str>, values: &Vec<V>) -> (ok: bool) {
        MinimalPerfectHashStaticDict::build(self, keys, values)
    }

    fn get(&self, key: &Str) -> (r: Option<&V>) {
        MinimalPerfectHashStaticDict::get(self, key)
    }

    fn compute_state(&self, key: &Str) -> (r: (
        (Vec<usize>, Vec<usize>),
        (Vec<usize>, Vec<usize>),
        (Vec<usize>, Vec<usize>),
    )) {
        MinimalPerfectHashStaticDict::compute_state(self, key)
    }

    fn fast_prefix_get(
        &self,
        key: &Str,
        state: &((Vec<usize>, Vec<usize>), (Vec<usize>, Vec<usize>), (Vec<usize>, Vec<usize>)),
        ind: usize,
    ) -> (r: Option<&V>) {
        MinimalPerfectHashStaticDict::fast_prefix_get(self, key, state, ind)
    }
}

} // verus!
