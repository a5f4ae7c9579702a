//! Prefix hashes over bit strings.
//!
//! `RollingHash` is a polynomial rolling hash with a precomputed per-prefix
//! state, so that the hash of any prefix is read off in constant time and
//! provably equals the hash computed from scratch. The parametric
//! constructors derive a base coprime to the table size, which is what lets
//! the minimal perfect hash dictionary reduce digests modulo that size.

use vstd::prelude::*;
use crate::bitstr::{Str, bits_of, str_len, str_get};
use rand::SeedableRng;
use rand::RngCore;

verus! {

/// Greatest common divisor.
pub open spec fn gcd(a: nat, b: nat) -> nat
    decreases b,
{
    if b == 0 {
        a
    } else {
        gcd(b, a % b)
    }
}

/// The greatest common divisor divides both arguments (taking `x % 0 == x`),
/// and is positive when one of them is.
pub proof fn lemma_gcd_divides(a: nat, b: nat)
    ensures
        b > 0 || a > 0 ==> gcd(a, b) >= 1,
        gcd(a, b) > 0 ==> a % gcd(a, b) == 0,
        gcd(a, b) > 0 && b > 0 ==> b % gcd(a, b) == 0,
    decreases b,
{
    if b == 0 {
        if a > 0 {
            vstd::arithmetic::div_mod::lemma_mod_self_0(a as int);
        }
    } else {
        lemma_gcd_divides(b, a % b);
        let g = gcd(b, (a % b) as nat);
        assert(g >= 1);
        // g divides b and a % b, so it divides a
        if a % b > 0 {
            lemma_divides_sum(a, b, g);
        } else {
            lemma_divides_sum(a, b, g);
        }
    }
}

/// If `d` divides `b` and `a % b`, then `d` divides `a`.
proof fn lemma_divides_sum(a: nat, b: nat, d: nat)
    requires
        b > 0,
        d > 0,
        b % d == 0,
        (a % b) % d == 0,
    ensures
        a % d == 0,
{
    vstd::arithmetic::div_mod::lemma_fundamental_div_mod(a as int, b as int);
    let q = a as int / b as int;
    assert(a as int == b as int * (a as int / b as int) + (a as int % b as int));
    assert(a as int == q * b + (a as int % b as int)) by {
        vstd::arithmetic::mul::lemma_mul_is_commutative(b as int, q);
    }
    vstd::arithmetic::div_mod::lemma_fundamental_div_mod(b as int, d as int);
    let qb = b as int / d as int;
    assert(b == qb * d);
    vstd::arithmetic::div_mod::lemma_fundamental_div_mod((a % b) as int, d as int);
    let qr = (a % b) as int / d as int;
    assert(a as int == q * (qb * d) + qr * d);
    assert(q * (qb * d) == (q * qb) * d) by {
        vstd::arithmetic::mul::lemma_mul_is_associative(q, qb, d as int);
    }
    assert(a as int == (q * qb + qr) * d) by {
        vstd::arithmetic::mul::lemma_mul_is_distributive_add_other_way(d as int, q * qb, qr);
    }
    vstd::arithmetic::div_mod::lemma_mod_multiples_basic(q * qb + qr, d as int);
}

/// A polynomial rolling hash with modulus `modulo` and base `base`.
pub struct RollingHash {
    pub modulo: usize,
    pub base: usize,
}

impl RollingHash {
    /// Structural bounds under which no hash computation overflows.
    pub open spec fn wf(&self) -> bool {
        &&& 2 <= self.modulo <= 0xFFFF_FFFFusize
        &&& 1 <= self.base < self.modulo
    }

    pub open spec fn spec_modulo(&self) -> usize {
        self.modulo
    }

    pub open spec fn spec_base(&self) -> usize {
        self.base
    }

    /// The power of the base in play after `ind` bits have been absorbed.
    pub open spec fn pot_at(&self, ind: int) -> int
        decreases ind,
    {
        if ind <= 0 {
            (self.base * self.base) % (self.modulo as int)
        } else {
            (self.pot_at(ind - 1) * self.base) % (self.modulo as int)
        }
    }

    /// The hash of the first `ind` bits of `s`: starting from the base,
    /// each bit adds the current power once, a set bit twice, modulo the
    /// modulus.
    pub open spec fn hash_at(&self, s: Seq<bool>, ind: int) -> int
        decreases ind,
    {
        if ind <= 0 {
            self.base as int
        } else {
            let step = (self.hash_at(s, ind - 1) + self.pot_at(ind - 1)) % (self.modulo as int);
            if s[ind - 1] {
                (step + self.pot_at(ind - 1)) % (self.modulo as int)
            } else {
                step
            }
        }
    }

    proof fn lemma_pot_bounds(&self, ind: int)
        requires
            self.wf(),
        ensures
            0 <= self.pot_at(ind) < self.modulo,
        decreases ind,
    {
        if ind <= 0 {
            vstd::arithmetic::div_mod::lemma_mod_division_less_than_divisor(
                (self.base * self.base) as int,
                self.modulo as int,
            );
            assert(self.base * self.base >= 0) by {
                vstd::arithmetic::mul::lemma_mul_nonnegative(self.base as int, self.base as int);
            }
        } else {
            self.lemma_pot_bounds(ind - 1);
            vstd::arithmetic::mul::lemma_mul_nonnegative(self.pot_at(ind - 1), self.base as int);
            vstd::arithmetic::div_mod::lemma_mod_division_less_than_divisor(
                self.pot_at(ind - 1) * self.base,
                self.modulo as int,
            );
        }
    }

    /// Every hash value lies below the modulus.
    pub proof fn lemma_hash_bounds(&self, s: Seq<bool>, ind: int)
        requires
            self.wf(),
        ensures
            0 <= self.hash_at(s, ind) < self.modulo,
        decreases ind,
    {
        if ind > 0 {
            self.lemma_hash_bounds(s, ind - 1);
            self.lemma_pot_bounds(ind - 1);
            vstd::arithmetic::div_mod::lemma_mod_division_less_than_divisor(
                self.hash_at(s, ind - 1) + self.pot_at(ind - 1),
                self.modulo as int,
            );
            if s[ind - 1] {
                vstd::arithmetic::div_mod::lemma_mod_division_less_than_divisor(
                    (self.hash_at(s, ind - 1) + self.pot_at(ind - 1)) % (self.modulo as int)
                        + self.pot_at(ind - 1),
                    self.modulo as int,
                );
            }
        }
    }

    /// The hash of a prefix does not depend on the bits behind it.
    pub proof fn lemma_hash_prefix(&self, s: Seq<bool>, t: Seq<bool>, ind: int)
        requires
            0 <= ind <= s.len(),
            ind <= t.len(),
            forall|j: int| 0 <= j < ind ==> s[j] == t[j],
        ensures
            self.hash_at(s, ind) == self.hash_at(t, ind),
        decreases ind,
    {
        if ind > 0 {
            self.lemma_hash_prefix(s, t, ind - 1);
        }
    }

    /// The default instance: base 37, modulus 1000000007.
    pub fn new() -> (r: RollingHash)
        ensures
            r.wf(),
            r.spec_base() == 37usize,
            r.spec_modulo() == 1000000007usize,
    {
        RollingHash { base: 37, modulo: 1000000007 }
    }

    /// The hash of the whole string.
    pub fn hash(&self, s: &Str) -> (r: usize)
        requires
            self.wf(),
        ensures
            r == self.hash_at(bits_of(*s), bits_of(*s).len() as int),
    {
        let n = str_len(s);
        self.slow_prefix_hash(s, n)
    }

    /// The product of two values below the modulus stays within a word.
    proof fn lemma_mul_fits(a: int, b: int)
        requires
            0 <= a <= 0xFFFF_FFFE,
            0 <= b <= 0xFFFF_FFFE,
        ensures
            a * b <= 0xFFFF_FFFE * 0xFFFF_FFFE,
    {
        vstd::arithmetic::mul::lemma_mul_upper_bound(a, 0xFFFF_FFFE, b, 0xFFFF_FFFE);
    }

    /// The hash of the first `ind` bits, computed from scratch.
    pub fn slow_prefix_hash(&self, s: &Str, ind: usize) -> (r: usize)
        requires
            self.wf(),
            ind <= bits_of(*s).len(),
        ensures
            r == self.hash_at(bits_of(*s), ind as int),
    {
        let m64: u64 = self.modulo as u64;
        proof {
            Self::lemma_mul_fits(self.base as int, self.base as int);
        }
        let mut res: usize = self.base;
        let mut pot: usize = (((self.base as u64) * (self.base as u64)) % m64) as usize;
        let mut currind: usize = 0;
        while currind < ind
            invariant
                self.wf(),
                m64 == self.modulo as u64,
                currind <= ind,
                ind <= bits_of(*s).len(),
                res == self.hash_at(bits_of(*s), currind as int),
                pot == self.pot_at(currind as int),
                res < self.modulo,
                pot < self.modulo,
            decreases ind - currind,
        {
            res = (((res as u64) + (pot as u64)) % m64) as usize;
            if str_get(s, currind) {
                res = (((res as u64) + (pot as u64)) % m64) as usize;
            }
            proof {
                Self::lemma_mul_fits(pot as int, self.base as int);
            }
            pot = (((pot as u64) * (self.base as u64)) % m64) as usize;
            currind = currind + 1;
        }
        res
    }

    /// Precomputes, at every word boundary of the string, the prefix hash
    /// and the pending power of the base: one state entry per stored word,
    /// as the bits themselves are stored.
    pub fn compute_state(&self, s: &Str) -> (r: (Vec<usize>, Vec<usize>))
        requires
            self.wf(),
        ensures
            self.state_inv(bits_of(*s), r),
    {
        let m64: u64 = self.modulo as u64;
        proof {
            Self::lemma_mul_fits(self.base as int, self.base as int);
            vstd::arithmetic::power2::lemma2_to64();
        }
        let n = str_len(s);
        let mut v: Vec<usize> = Vec::new();
        let mut pots: Vec<usize> = Vec::new();
        let mut res: usize = self.base;
        let mut pot: usize = (((self.base as u64) * (self.base as u64)) % m64) as usize;
        v.push(res);
        pots.push(pot);
        let mut currind: usize = 0;
        while currind < n
            invariant
                self.wf(),
                m64 == self.modulo as u64,
                currind <= n,
                n == bits_of(*s).len(),
                v@.len() == currind as int / 64 + 1,
                pots@.len() == v@.len(),
                forall|k: int|
                    #![trigger v@[k]]
                    #![trigger pots@[k]]
                    0 <= k < v@.len() ==> v@[k] == self.hash_at(bits_of(*s), 64 * k) && pots@[k]
                        == self.pot_at(64 * k),
                res == self.hash_at(bits_of(*s), currind as int),
                pot == self.pot_at(currind as int),
                res < self.modulo,
                pot < self.modulo,
            decreases n - currind,
        {
            res = (((res as u64) + (pot as u64)) % m64) as usize;
            if str_get(s, currind) {
                res = (((res as u64) + (pot as u64)) % m64) as usize;
            }
            proof {
                Self::lemma_mul_fits(pot as int, self.base as int);
            }
            pot = (((pot as u64) * (self.base as u64)) % m64) as usize;
            currind = currind + 1;
            if currind % 64 == 0 {
                proof {
                    vstd::arithmetic::div_mod::lemma_fundamental_div_mod(currind as int, 64);
                    vstd::arithmetic::div_mod::lemma_fundamental_div_mod_converse(
                        currind as int - 1,
                        64,
                        currind as int / 64 - 1,
                        63,
                    );
                    assert(64 * (currind as int / 64) == currind as int);
                }
                v.push(res);
                pots.push(pot);
            } else {
                proof {
                    vstd::arithmetic::div_mod::lemma_fundamental_div_mod(
                        currind as int - 1,
                        64,
                    );
                    vstd::arithmetic::div_mod::lemma_mod_division_less_than_divisor(
                        currind as int - 1,
                        64,
                    );
                    vstd::arithmetic::div_mod::lemma_fundamental_div_mod_converse(
                        currind as int,
                        64,
                        (currind as int - 1) / 64,
                        (currind as int - 1) % 64 + 1,
                    );
                }
            }
        }
        (v, pots)
    }

    /// What `compute_state` promises: entry `k` holds the hash of the
    /// first `64 * k` bits, and the power of the base pending after them.
    pub open spec fn state_inv(&self, s: Seq<bool>, state: (Vec<usize>, Vec<usize>)) -> bool {
        &&& state.0@.len() == s.len() as int / 64 + 1
        &&& state.1@.len() == state.0@.len()
        &&& forall|k: int|
            #![trigger state.0@[k]]
            #![trigger state.1@[k]]
            0 <= k < state.0@.len() ==> state.0@[k] == self.hash_at(s, 64 * k) && state.1@[k]
                == self.pot_at(64 * k)
    }

    /// The hash of the first `ind` bits: read the state at the preceding
    /// word boundary and absorb at most a word's worth of bits.
    pub fn fast_prefix_hash(&self, s: &Str, state: &(Vec<usize>, Vec<usize>), ind: usize) -> (r:
        usize)
        requires
            self.wf(),
            self.state_inv(bits_of(*s), *state),
            ind <= bits_of(*s).len(),
        ensures
            r == self.hash_at(bits_of(*s), ind as int),
    {
        let m64: u64 = self.modulo as u64;
        let w = ind / 64;
        proof {
            vstd::arithmetic::div_mod::lemma_div_is_ordered(
                ind as int,
                bits_of(*s).len() as int,
                64,
            );
            vstd::arithmetic::div_mod::lemma_fundamental_div_mod(ind as int, 64);
            vstd::arithmetic::div_mod::lemma_mod_division_less_than_divisor(ind as int, 64);
            self.lemma_hash_bounds(bits_of(*s), 64 * w as int);
            self.lemma_pot_bounds(64 * w as int);
        }
        let mut res: usize = state.0[w];
        let mut pot: usize = state.1[w];
        let mut currind: usize = w * 64;
        while currind < ind
            invariant
                self.wf(),
                m64 == self.modulo as u64,
                currind <= ind,
                ind <= bits_of(*s).len(),
                res == self.hash_at(bits_of(*s), currind as int),
                pot == self.pot_at(currind as int),
                res < self.modulo,
                pot < self.modulo,
            decreases ind - currind,
        {
            res = (((res as u64) + (pot as u64)) % m64) as usize;
            if str_get(s, currind) {
                res = (((res as u64) + (pot as u64)) % m64) as usize;
            }
            proof {
                Self::lemma_mul_fits(pot as int, self.base as int);
            }
            pot = (((pot as u64) * (self.base as u64)) % m64) as usize;
            currind = currind + 1;
        }
        res
    }

    /// A hash whose base is coprime to `domain_size` and whose modulus is
    /// `domain_size` itself, derived from the given seed.
    pub fn new_parametric(domain_size: usize, seed: u64) -> (r: RollingHash)
        requires
            2 <= domain_size <= 0xFFFF_FFFFusize,
        ensures
            r.wf(),
            r.spec_modulo() == domain_size,
            gcd(r.spec_base() as nat, domain_size as nat) == 1,
    {
        let num = ((draw_u32(seed) as usize) % (domain_size - 1)) + 1;
        let base = RollingHash::get_coprime(num, domain_size);
        RollingHash { base, modulo: domain_size }
    }

    /// Like `new_parametric`, but seeded from the thread's entropy source.
    pub fn new_random(domain_size: usize) -> (r: RollingHash)
        requires
            2 <= domain_size <= 0xFFFF_FFFFusize,
        ensures
            r.wf(),
            r.spec_modulo() == domain_size,
            gcd(r.spec_base() as nat, domain_size as nat) == 1,
    {
        let num = ((draw_u32_entropy() as usize) % (domain_size - 1)) + 1;
        let base = RollingHash::get_coprime(num, domain_size);
        RollingHash { base, modulo: domain_size }
    }

    /// Strips from `num` every factor it shares with `domain_size`, leaving
    /// a number coprime to it.
    fn get_coprime(num: usize, domain_size: usize) -> (r: usize)
        requires
            1 <= num < domain_size,
            domain_size >= 2,
        ensures
            1 <= r < domain_size,
            gcd(r as nat, domain_size as nat) == 1,
    {
        let mut res = num;
        loop
            invariant
                1 <= res < domain_size,
                domain_size >= 2,
            ensures
                1 <= res < domain_size,
                gcd(res as nat, domain_size as nat) == 1,
            decreases res,
        {
            let mut x = res;
            let mut y = domain_size;
            while y != 0
                invariant
                    gcd(x as nat, y as nat) == gcd(res as nat, domain_size as nat),
                    y < domain_size || y == domain_size,
                    x >= 1 || y >= 1,
                decreases y,
            {
                let tmp = y;
                y = x % y;
                x = tmp;
            }
            assert(x == gcd(res as nat, domain_size as nat));
            if x == 1 {
                break;
            } else {
                proof {
                    lemma_gcd_divides(res as nat, domain_size as nat);
                    assert(x >= 2) by {
                        if x == 0 {
                            assert(gcd(res as nat, domain_size as nat) >= 1);
                        }
                    }
                    assert(res % x == 0);
                    assert(x <= res) by {
                        if x > res {
                            vstd::arithmetic::div_mod::lemma_small_mod(
                                res as nat,
                                x as nat,
                            );
                        }
                    }
                    vstd::arithmetic::div_mod::lemma_fundamental_div_mod(res as int, x as int);
                    assert(res == (res as int / x as int) * x);
                    assert(res as int / x as int >= 1) by {
                        vstd::arithmetic::div_mod::lemma_div_non_zero(res as int, x as int);
                    }
                    assert((res as int / x as int) < res as int) by {
                        if res as int / x as int >= res {
                            vstd::arithmetic::mul::lemma_mul_inequality(
                                res as int,
                                res as int / x as int,
                                x as int,
                            );
                            vstd::arithmetic::mul::lemma_mul_inequality(
                                2,
                                x as int,
                                res as int,
                            );
                        }
                    }
                }
                res = res / x;
            }
        }
        res
    }
}

/// Relies on rand's `SmallRng::seed_from_u64` and `RngCore::next_u32`:
/// one pseudo-random draw from the given seed. The draw is deterministic
/// on a given platform, but rand documents `SmallRng` as non-portable
/// (its algorithm differs between word sizes), so nothing is stated of
/// the value; every caller must work whatever comes back.
#[verifier::external_body]
fn draw_u32(seed: u64) -> (r: u32) {
    rand::rngs::SmallRng::seed_from_u64(seed).next_u32()
}

/// Relies on rand's `SmallRng::from_entropy` and `RngCore::next_u32`:
/// one draw from the operating system's entropy.
#[verifier::external_body]
fn draw_u32_entropy() -> (r: u32) {
    rand::rngs::SmallRng::from_entropy().next_u32()
}

/// The identity hash: the digest of a prefix is the prefix itself, one
/// entry per bit.
pub struct NaiveHash;

impl NaiveHash {
    pub fn new() -> (r: NaiveHash) {
        NaiveHash {  }
    }

    /// The whole string as its own digest.
    pub fn hash(&self, s: &Str) -> (r: Vec<usize>)
        ensures
            r@.len() == bits_of(*s).len(),
            forall|i: int|
                0 <= i < r@.len() ==> #[trigger] r@[i] == (if bits_of(*s)[i] {
                    1usize
                } else {
                    0usize
                }),
    {
        let n = str_len(s);
        self.slow_prefix_hash(s, n)
    }

    /// The first `ind` bits as the digest.
    pub fn slow_prefix_hash(&self, s: &Str, ind: usize) -> (r: Vec<usize>)
        requires
            ind <= bits_of(*s).len(),
        ensures
            r@.len() == ind,
            forall|i: int|
                0 <= i < ind ==> #[trigger] r@[i] == (if bits_of(*s)[i] {
                    1usize
                } else {
                    0usize
                }),
    {
        let mut r: Vec<usize> = Vec::new();
        let mut i: usize = 0;
        while i < ind
            invariant
                i <= ind,
                ind <= bits_of(*s).len(),
                r@.len() == i,
                forall|j: int|
                    0 <= j < i ==> #[trigger] r@[j] == (if bits_of(*s)[j] {
                        1usize
                    } else {
                        0usize
                    }),
            decreases ind - i,
        {
            if str_get(s, i) {
                r.push(1);
            } else {
                r.push(0);
            }
            i = i + 1;
        }
        r
    }

    /// Nothing to precompute: the fast path recomputes from scratch.
    pub fn compute_state(&self, _s: &Str) {
    }

    /// The same digest as the slow path.
    pub fn fast_prefix_hash(&self, s: &Str, _state: &(), ind: usize) -> (r: Vec<usize>)
        requires
            ind <= bits_of(*s).len(),
        ensures
            r@.len() == ind,
            forall|i: int|
                0 <= i < ind ==> #[trigger] r@[i] == (if bits_of(*s)[i] {
                    1usize
                } else {
                    0usize
                }),
    {
        self.slow_prefix_hash(s, ind)
    }
}

impl crate::traits::Hash for NaiveHash {
    type HashType = Vec<usize>;

    type State = ();

    open spec fn inv(&self) -> bool {
        true
    }

    fn new() -> (r: Self) {
        NaiveHash::new()
    }

    fn hash(&self, s: &Str) -> (r: Vec<usize>) {
        NaiveHash::hash(self, s)
    }

    fn slow_prefix_hash(&self, s: &Str, ind: usize) -> (r: Vec<usize>) {
        NaiveHash::slow_prefix_hash(self, s, ind)
    }

    open spec fn state_fits(&self, s: Seq<bool>, state: ()) -> bool {
        true
    }

    fn compute_state(&self, s: &Str) -> (r: ()) {
        NaiveHash::compute_state(self, s)
    }

    fn fast_prefix_hash(&self, s: &Str, state: &(), ind: usize) -> (r: Vec<usize>) {
        NaiveHash::fast_prefix_hash(self, s, state, ind)
    }
}

impl crate::traits::Hash for RollingHash {
    type HashType = usize;

    type State = (Vec<usize>, Vec<usize>);

    open spec fn inv(&self) -> bool {
        self.wf()
    }

    fn new() -> (r: Self) {
        RollingHash::new()
    }

    fn hash(&self, s: &Str) -> (r: usize) {
        RollingHash::hash(self, s)
    }

    fn slow_prefix_hash(&self, s: &Str, ind: usize) -> (r: usize) {
        RollingHash::slow_prefix_hash(self, s, ind)
    }

    open spec fn state_fits(&self, s: Seq<bool>, state: (Vec<usize>, Vec<usize>)) -> bool {
        self.state_inv(s, state)
    }

    fn compute_state(&self, s: &Str) -> (r: (Vec<usize>, Vec<usize>)) {
        RollingHash::compute_state(self, s)
    }

    fn fast_prefix_hash(&self, s: &Str, state: &(Vec<usize>, Vec<usize>), ind: usize) -> (r:
        usize) {
        RollingHash::fast_prefix_hash(self, s, state, ind)
    }
}

impl crate::traits::ParametricHash for RollingHash {
    fn new_parametric(domain_size: usize, seed: u64) -> (r: Self) {
        RollingHash::new_parametric(domain_size, seed)
    }

    fn new_random(domain_size: usize) -> (r: Self) {
        RollingHash::new_random(domain_size)
    }
}

} // verus!
