//! Rank structures over the bitwise OR of two parallel bit arrays.
//!
//! `rank(i)` counts the positions below `i` where at least one of the two
//! arrays holds a set bit. `NaiveRank` scans; `JacobsonRank` answers from a
//! two-level block decomposition in constant time. Both are proved against
//! the same counting specification.

use vstd::prelude::*;
use crate::bitstr::{Str, bits_of, str_get, str_len};
use crate::bitwise_operations::least_exceeding;
use vstd::arithmetic::power2::{pow2, lemma_pow2_pos, lemma_pow2_unfold, lemma_pow2_strictly_increases};
use vstd::arithmetic::div_mod::{
    lemma_div_denominator, lemma_fundamental_div_mod, lemma_div_is_ordered, lemma_basic_div,
    lemma_div_non_zero, lemma_mod_division_less_than_divisor, lemma_div_multiples_vanish,
    lemma_fundamental_div_mod_converse,
};
use vstd::arithmetic::mul::{lemma_mul_inequality, lemma_mul_upper_bound};

verus! {

/// The number of positions in `[0, i)` where `a` or `b` holds a set bit.
pub open spec fn or_rank(a: Seq<bool>, b: Seq<bool>, i: int) -> int
    decreases i,
{
    if i <= 0 {
        0
    } else {
        or_rank(a, b, i - 1) + if a[i - 1] || b[i - 1] {
            1int
        } else {
            0int
        }
    }
}

/// Counting set bits never decreases, and grows by at most one per position.
pub proof fn lemma_or_rank_bounds(a: Seq<bool>, b: Seq<bool>, i: int)
    requires
        i >= 0,
    ensures
        0 <= or_rank(a, b, i) <= i,
    decreases i,
{
    if i > 0 {
        lemma_or_rank_bounds(a, b, i - 1);
    }
}

/// Counting is monotone in the index.
pub proof fn lemma_or_rank_monotone(a: Seq<bool>, b: Seq<bool>, i: int, j: int)
    requires
        0 <= i <= j,
    ensures
        or_rank(a, b, i) <= or_rank(a, b, j),
    decreases j - i,
{
    if i < j {
        lemma_or_rank_monotone(a, b, i, j - 1);
    }
}

/// A compact vector of fixed-width integers, held in sux's `BitFieldVec`.
/// Verus refuses the bound on that type's backend parameter, so the vector
/// lives in an opaque wrapper and is reached only through the functions
/// below.
#[verifier::external_body]
pub struct RankList {
    inner: sux::bits::BitFieldVec<Vec<usize>>,
}

/// The values that a `RankList` holds, in order.
pub uninterp spec fn values_of(v: RankList) -> Seq<usize>;

/// The width in bits of each value slot of a `RankList`.
pub uninterp spec fn width_of(v: RankList) -> nat;

/// Relies on sux's `BitFieldVec::with_capacity`: an empty vector with the
/// given bit width.
#[verifier::external_body]
pub fn rl_with_capacity(bit_width: usize, capacity: usize) -> (r: RankList)
    requires
        bit_width <= 32,
    ensures
        values_of(r) == Seq::<usize>::empty(),
        width_of(r) == bit_width,
{
    RankList { inner: sux::bits::BitFieldVec::with_capacity(bit_width, capacity) }
}

/// Relies on sux's `BitFieldVec::push`: appends a value that fits the width.
#[verifier::external_body]
pub fn rl_push(v: &mut RankList, val: usize)
    requires
        width_of(*old(v)) <= 32,
        (val as nat) < vstd::arithmetic::power2::pow2(width_of(*old(v))),
    ensures
        values_of(*final(v)) == values_of(*old(v)).push(val),
        width_of(*final(v)) == width_of(*old(v)),
{
    v.inner.push(val);
}

/// Relies on sux's `SliceByValue::index_value`: the value at the given index.
#[verifier::external_body]
pub fn rl_get(v: &RankList, i: usize) -> (r: usize)
    requires
        i < values_of(*v).len(),
    ensures
        r == values_of(*v)[i as int],
{
    value_traits::slices::SliceByValue::index_value(&v.inner, i)
}

/// Whether position `q` carries a set OR-bit; positions outside the arrays
/// count as clear.
pub open spec fn orbit_at(a: Seq<bool>, b: Seq<bool>, q: int) -> bool {
    0 <= q < a.len() && (a[q] || b[q])
}

/// The OR-bits of positions `l` (lowest) to `r` (excluded), packed into one
/// number.
pub open spec fn pattern_val(a: Seq<bool>, b: Seq<bool>, l: int, r: int) -> int
    decreases r - l,
{
    if l >= r {
        0
    } else {
        (if orbit_at(a, b, l) {
            1int
        } else {
            0int
        }) + 2 * pattern_val(a, b, l + 1, r)
    }
}

/// The number of set bits among the `j` lowest bits of `p`.
pub open spec fn pat_rank(p: int, j: int) -> int
    decreases j,
{
    if j <= 0 {
        0
    } else {
        pat_rank(p, j - 1) + (p / pow2((j - 1) as nat) as int) % 2
    }
}

proof fn lemma_pattern_bound(a: Seq<bool>, b: Seq<bool>, l: int, r: int)
    requires
        l <= r,
    ensures
        0 <= pattern_val(a, b, l, r) < pow2((r - l) as nat),
    decreases r - l,
{
    lemma_pow2_pos((r - l) as nat);
    if l < r {
        lemma_pattern_bound(a, b, l + 1, r);
        lemma_pow2_unfold((r - l) as nat);
    }
}

proof fn lemma_pattern_zero(a: Seq<bool>, b: Seq<bool>, l: int, r: int)
    requires
        l >= a.len(),
    ensures
        pattern_val(a, b, l, r) == 0,
    decreases r - l,
{
    if l < r {
        lemma_pattern_zero(a, b, l + 1, r);
    }
}

/// Bit `q` of the packed pattern is the OR-bit at position `l + q`.
proof fn lemma_pattern_bits(a: Seq<bool>, b: Seq<bool>, l: int, r: int, q: int)
    requires
        0 <= q < r - l,
    ensures
        (pattern_val(a, b, l, r) / pow2(q as nat) as int) % 2 == (if orbit_at(a, b, l + q) {
            1int
        } else {
            0int
        }),
    decreases q,
{
    let p = pattern_val(a, b, l, r);
    let head: int = if orbit_at(a, b, l) {
        1
    } else {
        0
    };
    let rest = pattern_val(a, b, l + 1, r);
    lemma_pattern_bound(a, b, l + 1, r);
    if q == 0 {
        lemma_fundamental_div_mod_converse(p, 2, rest, head);
        assert(p / pow2(0) as int == p) by {
            assert(pow2(0) == 1) by {
                vstd::arithmetic::power2::lemma2_to64();
            }
        }
    } else {
        lemma_pattern_bits(a, b, l + 1, r, q - 1);
        lemma_fundamental_div_mod_converse(p, 2, rest, head);
        assert(p / 2 == rest);
        lemma_pow2_unfold(q as nat);
        lemma_pow2_pos((q - 1) as nat);
        lemma_div_denominator(p, 2, pow2((q - 1) as nat) as int);
        assert(p / pow2(q as nat) as int == rest / pow2((q - 1) as nat) as int);
    }
}

/// Counting the low bits of a packed block pattern counts OR-bits.
proof fn lemma_pat_rank_or(a: Seq<bool>, b: Seq<bool>, l: int, r: int, j: int)
    requires
        0 <= l,
        0 <= j <= r - l,
        a.len() == b.len(),
        l + j <= a.len(),
    ensures
        pat_rank(pattern_val(a, b, l, r), j) == or_rank(a, b, l + j) - or_rank(a, b, l),
    decreases j,
{
    if j > 0 {
        lemma_pat_rank_or(a, b, l, r, j - 1);
        lemma_pattern_bits(a, b, l, r, j - 1);
    }
}

/// The count never grows faster than the index.
proof fn lemma_or_rank_diff(a: Seq<bool>, b: Seq<bool>, i: int, j: int)
    requires
        0 <= i <= j,
    ensures
        or_rank(a, b, j) - or_rank(a, b, i) <= j - i,
    decreases j - i,
{
    if i < j {
        lemma_or_rank_diff(a, b, i, j - 1);
    }
}

/// A block never straddles a superblock boundary: rounding `i` down to its
/// block leaves it in the same superblock.
proof fn lemma_block_align(i: int, bd: int, sbd: int)
    requires
        0 <= i,
        1 <= bd,
        1 <= sbd,
        sbd % bd == 0,
    ensures
        (i - i % bd) / sbd == i / sbd,
{
    let lo = i - i % bd;
    lemma_fundamental_div_mod(i, bd);
    lemma_mod_division_less_than_divisor(i, bd);
    assert(lo == bd * (i / bd));
    lemma_fundamental_div_mod(i, sbd);
    lemma_mod_division_less_than_divisor(i, sbd);
    let s = sbd * (i / sbd);
    // s is a multiple of bd not exceeding i, so it does not exceed lo
    lemma_fundamental_div_mod(sbd, bd);
    assert(sbd == bd * (sbd / bd));
    assert(s == bd * ((sbd / bd) * (i / sbd))) by {
        vstd::arithmetic::mul::lemma_mul_is_associative(bd, sbd / bd, i / sbd);
    }
    let m = (sbd / bd) * (i / sbd);
    assert(s <= i);
    assert(m * bd <= i) by {
        vstd::arithmetic::mul::lemma_mul_is_commutative(bd, m);
    }
    assert(m <= i / bd) by {
        if m > i / bd {
            lemma_mul_inequality(i / bd + 1, m, bd);
            assert((i / bd + 1) * bd == bd * (i / bd) + bd) by {
                vstd::arithmetic::mul::lemma_mul_is_distributive_add_other_way(
                    bd,
                    i / bd,
                    1,
                );
                vstd::arithmetic::mul::lemma_mul_is_commutative(bd, i / bd);
            }
        }
    }
    assert(s <= lo) by {
        assert(m * bd <= (i / bd) * bd) by {
            lemma_mul_inequality(m, i / bd, bd);
        }
        vstd::arithmetic::mul::lemma_mul_is_commutative(bd, m);
        vstd::arithmetic::mul::lemma_mul_is_commutative(bd, i / bd);
    }
    // therefore i/sbd <= lo/sbd <= i/sbd
    assert(lo / sbd <= i / sbd) by {
        lemma_div_is_ordered(lo, i, sbd);
    }
    assert(i / sbd <= lo / sbd) by {
        assert(s / sbd == i / sbd) by {
            vstd::arithmetic::mul::lemma_mul_is_commutative(sbd, i / sbd);
            lemma_div_multiples_vanish(i / sbd, sbd);
        }
        lemma_div_is_ordered(s, lo, sbd);
    }
}

/// The least exponent whose power of two exceeds `i`, found by halving.
fn exp_exceeding(i: usize) -> (k: usize)
    ensures
        least_exceeding(i, k as nat),
{
    let mut t: usize = i;
    let mut k: usize = 0;
    let ghost mut kg: nat = 0nat;
    proof {
        vstd::arithmetic::power2::lemma2_to64();
    }
    while t > 0
        invariant
            kg == k,
            t == i as int / pow2(kg) as int,
            kg == 0 || pow2((kg - 1) as nat) <= i,
            k <= i,
        decreases t,
    {
        proof {
            lemma_pow2_pos(kg);
            assert(pow2(kg) <= i) by {
                if pow2(kg) > i {
                    lemma_basic_div(i as int, pow2(kg) as int);
                }
            }
            assert(k < i) by {
                if k < pow2(kg) {
                } else {
                    lemma_pow2_strictly_increases_general(kg);
                }
            }
            lemma_pow2_unfold(kg + 1);
            lemma_div_denominator(i as int, pow2(kg) as int, 2);
        }
        t = t / 2;
        k = k + 1;
        proof {
            kg = kg + 1nat;
        }
    }
    proof {
        lemma_pow2_pos(kg);
        assert(i < pow2(kg)) by {
            if i >= pow2(kg) {
                lemma_div_non_zero(i as int, pow2(kg) as int);
            }
        }
    }
    k
}

/// Every exponent is below its power of two.
proof fn lemma_pow2_strictly_increases_general(e: nat)
    ensures
        e < pow2(e),
    decreases e,
{
    if e > 0 {
        lemma_pow2_strictly_increases_general((e - 1) as nat);
        lemma_pow2_unfold(e);
    } else {
        vstd::arithmetic::power2::lemma2_to64();
    }
}

/// The ceiling quotient steps by one past each multiple.
proof fn lemma_ceil_div(n: int, d: int)
    requires
        n >= 1,
        d >= 1,
    ensures
        (n + d - 1) / d == (n - 1) / d + 1,
{
    lemma_fundamental_div_mod(n - 1, d);
    lemma_mod_division_less_than_divisor(n - 1, d);
    let q = (n - 1) / d;
    let r = (n - 1) % d;
    assert(n + d - 1 == (q + 1) * d + r) by {
        vstd::arithmetic::mul::lemma_mul_is_distributive_add_other_way(d, q, 1);
        vstd::arithmetic::mul::lemma_mul_is_commutative(d, q);
    }
    lemma_fundamental_div_mod_converse(n + d - 1, d, q + 1, r);
}

/// Rounding down to a multiple of `d` does not go above `i`.
proof fn lemma_mul_div_le(i: int, d: int)
    requires
        i >= 0,
        d >= 1,
    ensures
        0 <= (i / d) * d <= i,
        i - (i / d) * d == i % d,
{
    lemma_fundamental_div_mod(i, d);
    lemma_mod_division_less_than_divisor(i, d);
    vstd::arithmetic::mul::lemma_mul_is_commutative(d, i / d);
    vstd::arithmetic::mul::lemma_mul_nonnegative(i / d, d);
}

/// The count of set low bits cannot exceed their number.
proof fn lemma_pat_rank_bound(p: int, j: int)
    requires
        j >= 0,
    ensures
        0 <= pat_rank(p, j) <= j,
    decreases j,
{
    if j > 0 {
        lemma_pat_rank_bound(p, j - 1);
        lemma_pow2_pos((j - 1) as nat);
        lemma_mod_division_less_than_divisor(p / pow2((j - 1) as nat) as int, 2);
    }
}

/// The two-level succinct rank structure: absolute counts at superblock
/// boundaries, relative counts at block boundaries, and a table of counts
/// for every possible block pattern.
pub struct JacobsonRank {
    n: usize,
    block_dim: usize,
    super_block_dim: usize,
    block_num: usize,
    super_block_num: usize,
    block_bits: usize,
    super_block_bits: usize,
    n_bits: usize,
    block_ranks: RankList,
    super_block_ranks: RankList,
    partial_ranks: Vec<RankList>,
}

impl JacobsonRank {
    /// The structure was built for exactly these two bit arrays.
    pub closed spec fn matches(&self, a: Seq<bool>, b: Seq<bool>) -> bool {
        &&& a.len() == b.len()
        &&& 1 <= a.len() <= 0x10000000
        &&& self.n == a.len() + 1
        &&& 1 <= self.block_dim <= 16
        &&& self.block_dim <= self.super_block_dim <= 2048
        &&& self.super_block_dim % self.block_dim == 0
        &&& self.super_block_num == (self.n + self.super_block_dim - 1) as int
            / self.super_block_dim as int
        &&& self.block_num == (self.n + self.block_dim - 1) as int / self.block_dim as int
        &&& values_of(self.super_block_ranks).len() == self.super_block_num
        &&& forall|i: int|
            0 <= i < self.super_block_num ==> #[trigger] values_of(self.super_block_ranks)[i]
                == or_rank(a, b, i * self.super_block_dim)
        &&& values_of(self.block_ranks).len() == self.block_num
        &&& forall|i: int|
            0 <= i < self.block_num ==> #[trigger] values_of(self.block_ranks)[i] == or_rank(
                a,
                b,
                i * self.block_dim,
            ) - or_rank(
                a,
                b,
                ((i * self.block_dim) / self.super_block_dim as int) * self.super_block_dim,
            )
        &&& self.partial_ranks@.len() == pow2(self.block_dim as nat)
        &&& forall|p: int|
            0 <= p < self.partial_ranks@.len() ==> #[trigger] values_of(
                self.partial_ranks@[p],
            ).len() == self.block_dim
        &&& forall|p: int, j: int|
            0 <= p < self.partial_ranks@.len() && 0 <= j < self.block_dim
                ==> #[trigger] values_of(self.partial_ranks@[p])[j] == pat_rank(p, j)
    }

    /// An empty structure; only `build` makes it answer for some arrays.
    pub fn new() -> (r: JacobsonRank) {
        JacobsonRank {
            n: 0,
            block_dim: 0,
            super_block_dim: 0,
            block_num: 0,
            super_block_num: 0,
            block_bits: 0,
            super_block_bits: 0,
            n_bits: 0,
            block_ranks: rl_with_capacity(1, 0),
            super_block_ranks: rl_with_capacity(1, 0),
            partial_ranks: Vec::new(),
        }
    }

    /// Packs the OR-bits of positions `l` to `r` (clipped to the arrays)
    /// into one table index, lowest position first.
    fn get_index(l: usize, r: usize, v0: &Str, v1: &Str) -> (res: usize)
        requires
            l <= r,
            r - l <= 16,
            bits_of(*v0).len() == bits_of(*v1).len(),
            l <= bits_of(*v0).len(),
        ensures
            res == pattern_val(bits_of(*v0), bits_of(*v1), l as int, r as int),
    {
        let ghost a = bits_of(*v0);
        let ghost b = bits_of(*v1);
        let len = str_len(v0);
        let hi = if r < len {
            r
        } else {
            len
        };
        proof {
            if r as int <= a.len() {
            } else {
                lemma_pattern_zero(a, b, hi as int, r as int);
            }
        }
        let mut res: usize = 0;
        let mut q: usize = hi;
        while q > l
            invariant
                l <= q <= hi,
                hi <= r,
                r - l <= 16,
                a == bits_of(*v0),
                b == bits_of(*v1),
                a.len() == b.len(),
                hi <= a.len(),
                res == pattern_val(a, b, q as int, r as int),
            decreases q,
        {
            q = q - 1;
            proof {
                lemma_pattern_bound(a, b, q + 1, r as int);
                lemma_pow2_strictly_increases(((r - q) - 1) as nat, 16);
                vstd::arithmetic::power2::lemma2_to64();
            }
            res = res * 2;
            if str_get(v0, q) || str_get(v1, q) {
                res = res + 1;
            }
        }
        res
    }

    /// The count of set bits among each number of low bits of `x`.
    fn compute_ranklist(x: usize, size: usize, k: usize) -> (r: RankList)
        requires
            k <= 32,
            size >= 1 ==> ((size - 1) as nat) < pow2(k as nat),
        ensures
            width_of(r) == k,
            values_of(r).len() == size,
            forall|j: int| 0 <= j < size ==> #[trigger] values_of(r)[j] == pat_rank(x as int, j),
    {
        let mut ranklist = rl_with_capacity(k, size);
        let mut curr: usize = 0;
        let mut xx: usize = x;
        let mut it: usize = 0;
        proof {
            vstd::arithmetic::power2::lemma2_to64();
        }
        while it < size
            invariant
                it <= size,
                k <= 32,
                width_of(ranklist) == k,
                values_of(ranklist).len() == it,
                forall|j: int|
                    0 <= j < it ==> #[trigger] values_of(ranklist)[j] == pat_rank(x as int, j),
                curr == pat_rank(x as int, it as int),
                xx == x as int / pow2(it as nat) as int,
                curr <= it,
                size >= 1 ==> ((size - 1) as nat) < pow2(k as nat),
            decreases size - it,
        {
            proof {
                lemma_pat_rank_bound(x as int, it as int);
            }
            rl_push(&mut ranklist, curr);
            proof {
                lemma_pow2_pos(it as nat);
                lemma_pow2_unfold(it as nat + 1);
                lemma_div_denominator(x as int, pow2(it as nat) as int, 2);
            }
            if xx % 2 == 1 {
                curr = curr + 1;
            }
            xx = xx / 2;
            it = it + 1;
        }
        ranklist
    }

    /// Precomputes the two levels of counts and the block pattern table for
    /// the OR of the two arrays.
    pub fn build(&mut self, v0: &Str, v1: &Str)
        requires
            // the array cap keeps the block and superblock sizing, and the
            // ceiling divisions over them, within the word on any target
            1 <= bits_of(*v0).len() <= 0x10000000,
            bits_of(*v0).len() == bits_of(*v1).len(),
        ensures
            final(self).matches(bits_of(*v0), bits_of(*v1)),
    {
        let ghost a = bits_of(*v0);
        let ghost b = bits_of(*v1);
        let len = str_len(v0);
        // running counts of set OR-bits: t[q] holds the count below q
        let mut t: Vec<usize> = Vec::new();
        let mut curr: usize = 0;
        let mut idx: usize = 0;
        while idx < len
            invariant
                idx <= len,
                len == a.len(),
                a.len() == b.len(),
                a == bits_of(*v0),
                b == bits_of(*v1),
                t@.len() == idx,
                forall|q: int| 0 <= q < idx ==> #[trigger] t@[q] == or_rank(a, b, q),
                curr == or_rank(a, b, idx as int),
                curr <= idx,
            decreases len - idx,
        {
            t.push(curr);
            if str_get(v0, idx) || str_get(v1, idx) {
                curr = curr + 1;
            }
            idx = idx + 1;
        }
        t.push(curr);
        assert(forall|q: int| 0 <= q <= len ==> #[trigger] t@[q] == or_rank(a, b, q));

        let n = len + 1;
        let k = exp_exceeding(n - 1);
        proof {
            vstd::arithmetic::power2::lemma2_to64();
            assert(k >= 1) by {
                if k == 0 {
                    assert(n - 1 < pow2(0));
                }
            }
            assert(k <= 29) by {
                if k > 29 {
                    assert(pow2((k - 1) as nat) <= n - 1);
                    if k - 1 > 29 {
                        lemma_pow2_strictly_increases(29, (k - 1) as nat);
                    }
                    assert(pow2(29) == 0x20000000) by {
                        vstd::arithmetic::power2::lemma2_to64();
                    }
                }
            }
        }
        let block_dim = (k + 1) / 2;
        proof {
            assert(1 <= block_dim <= 15);
        }
        // the superblock size: the square of the exponent, rounded up to a
        // multiple of the block size
        proof {
            lemma_mul_upper_bound(k as int, 29, k as int, 29);
        }
        let sq = k * k;
        proof {
            assert(sq <= 841);
            assert(sq >= 1) by {
                lemma_mul_inequality(1, k as int, k as int);
            }
            lemma_mul_div_le((sq + block_dim - 1) as int, block_dim as int);
        }
        let super_block_dim = ((sq + block_dim - 1) / block_dim) * block_dim;
        proof {
            lemma_mul_div_le((sq + block_dim - 1) as int, block_dim as int);
            assert(super_block_dim % block_dim == 0) by {
                vstd::arithmetic::div_mod::lemma_mod_multiples_basic(
                    ((sq + block_dim - 1) as int / block_dim as int),
                    block_dim as int,
                );
                vstd::arithmetic::mul::lemma_mul_is_commutative(
                    ((sq + block_dim - 1) as int / block_dim as int),
                    block_dim as int,
                );
            }
            assert(super_block_dim >= block_dim) by {
                lemma_div_non_zero((sq + block_dim - 1) as int, block_dim as int);
                lemma_mul_inequality(
                    1,
                    ((sq + block_dim - 1) as int / block_dim as int),
                    block_dim as int,
                );
            }
            assert(super_block_dim <= 2048) by {
                lemma_div_is_ordered(
                    (sq + block_dim - 1) as int,
                    (29 * 29 + 15) as int,
                    block_dim as int,
                );
                lemma_mul_inequality(
                    ((sq + block_dim - 1) as int / block_dim as int),
                    ((29 * 29 + 15) as int) / block_dim as int,
                    block_dim as int,
                );
                lemma_mul_div_le((29 * 29 + 15) as int, block_dim as int);
            }
        }
        let n_bits = k;
        let super_block_bits = exp_exceeding(super_block_dim - 1);
        let block_bits = exp_exceeding(block_dim - 1);
        proof {
            assert(super_block_bits <= 32) by {
                if super_block_bits > 32 {
                    assert(pow2((super_block_bits - 1) as nat) <= super_block_dim - 1);
                    if super_block_bits - 1 > 11 {
                        lemma_pow2_strictly_increases(11, (super_block_bits - 1) as nat);
                    }
                }
            }
            assert(block_bits <= 32) by {
                if block_bits > 32 {
                    assert(pow2((block_bits - 1) as nat) <= block_dim - 1);
                    if block_bits - 1 > 4 {
                        lemma_pow2_strictly_increases(4, (block_bits - 1) as nat);
                    }
                }
            }
        }

        let super_block_num = (n + super_block_dim - 1) / super_block_dim;
        let block_num = (n + block_dim - 1) / block_dim;
        proof {
            lemma_ceil_div(n as int, super_block_dim as int);
            lemma_ceil_div(n as int, block_dim as int);
        }

        let mut super_block_ranks = rl_with_capacity(n_bits, super_block_num);
        let mut i: usize = 0;
        while i < super_block_num
            invariant
                i <= super_block_num,
                super_block_num == (n + super_block_dim - 1) as int / super_block_dim as int,
                super_block_num == (n - 1) as int / super_block_dim as int + 1,
                n == len + 1,
                len == a.len(),
                1 <= super_block_dim <= 2048,
                t@.len() == n,
                forall|q: int| 0 <= q <= len ==> #[trigger] t@[q] == or_rank(a, b, q),
                width_of(super_block_ranks) == n_bits,
                n_bits <= 32,
                n - 1 < pow2(n_bits as nat),
                values_of(super_block_ranks).len() == i,
                forall|q: int|
                    0 <= q < i ==> #[trigger] values_of(super_block_ranks)[q] == or_rank(
                        a,
                        b,
                        q * super_block_dim,
                    ),
            decreases super_block_num - i,
        {
            proof {
                lemma_div_is_ordered(i as int, (n - 1) as int, super_block_dim as int);
                lemma_mul_inequality(
                    i as int,
                    (n - 1) as int / super_block_dim as int,
                    super_block_dim as int,
                );
                lemma_mul_div_le((n - 1) as int, super_block_dim as int);
                lemma_or_rank_bounds(a, b, (i * super_block_dim) as int);
            }
            let pos = i * super_block_dim;
            let val = t[pos];
            rl_push(&mut super_block_ranks, val);
            i = i + 1;
        }

        let mut block_ranks = rl_with_capacity(super_block_bits, block_num);
        let mut i2: usize = 0;
        while i2 < block_num
            invariant
                i2 <= block_num,
                block_num == (n + block_dim - 1) as int / block_dim as int,
                block_num == (n - 1) as int / block_dim as int + 1,
                super_block_num == (n - 1) as int / super_block_dim as int + 1,
                n == len + 1,
                len == a.len(),
                a.len() == b.len(),
                1 <= block_dim <= 15,
                block_dim <= super_block_dim <= 2048,
                super_block_dim % block_dim == 0,
                t@.len() == n,
                forall|q: int| 0 <= q <= len ==> #[trigger] t@[q] == or_rank(a, b, q),
                values_of(super_block_ranks).len() == super_block_num,
                forall|q: int|
                    0 <= q < super_block_num ==> #[trigger] values_of(super_block_ranks)[q]
                        == or_rank(a, b, q * super_block_dim),
                width_of(block_ranks) == super_block_bits,
                super_block_bits <= 32,
                super_block_dim - 1 < pow2(super_block_bits as nat),
                values_of(block_ranks).len() == i2,
                forall|q: int|
                    0 <= q < i2 ==> #[trigger] values_of(block_ranks)[q] == or_rank(
                        a,
                        b,
                        q * block_dim,
                    ) - or_rank(
                        a,
                        b,
                        ((q * block_dim) / super_block_dim as int) * super_block_dim,
                    ),
            decreases block_num - i2,
        {
            proof {
                lemma_div_is_ordered(i2 as int, (n - 1) as int, block_dim as int);
                lemma_mul_inequality(
                    i2 as int,
                    (n - 1) as int / block_dim as int,
                    block_dim as int,
                );
                lemma_mul_div_le((n - 1) as int, block_dim as int);
            }
            let pos = i2 * block_dim;
            proof {
                lemma_mul_div_le(pos as int, super_block_dim as int);
                lemma_div_is_ordered(pos as int, (n - 1) as int, super_block_dim as int);
                lemma_or_rank_monotone(
                    a,
                    b,
                    ((pos / super_block_dim) * super_block_dim) as int,
                    pos as int,
                );
                lemma_or_rank_diff(
                    a,
                    b,
                    ((pos / super_block_dim) * super_block_dim) as int,
                    pos as int,
                );
                lemma_or_rank_bounds(a, b, pos as int);
            }
            let sb_i = pos / super_block_dim;
            let sb_val = rl_get(&super_block_ranks, sb_i);
            let val = t[pos] - sb_val;
            rl_push(&mut block_ranks, val);
            i2 = i2 + 1;
        }

        // the table indexed by every possible block pattern
        let mut table: usize = 1;
        let mut q: usize = 0;
        proof {
            vstd::arithmetic::power2::lemma2_to64();
        }
        while q < block_dim
            invariant
                q <= block_dim,
                block_dim <= 15,
                table == pow2(q as nat),
            decreases block_dim - q,
        {
            proof {
                if q as nat + 1 <= 15 {
                    if (q as nat) + 1 < 15 {
                        lemma_pow2_strictly_increases(q as nat + 1, 15);
                    }
                    assert(pow2(15) == 0x8000) by {
                        vstd::arithmetic::power2::lemma2_to64();
                    }
                }
                lemma_pow2_unfold(q as nat + 1);
            }
            table = table * 2;
            q = q + 1;
        }
        let mut partial_ranks: Vec<RankList> = Vec::new();
        let mut p: usize = 0;
        proof {
            lemma_pow2_strictly_increases_general(block_dim as nat);
        }
        while p < table
            invariant
                p <= table,
                table == pow2(block_dim as nat),
                1 <= block_dim <= 15,
                block_dim - 1 < pow2(block_bits as nat),
                block_bits <= 32,
                partial_ranks@.len() == p,
                forall|u: int|
                    0 <= u < p ==> #[trigger] values_of(partial_ranks@[u]).len() == block_dim,
                forall|u: int, j: int|
                    0 <= u < p && 0 <= j < block_dim ==> #[trigger] values_of(
                        partial_ranks@[u],
                    )[j] == pat_rank(u, j),
            decreases table - p,
        {
            let rl = Self::compute_ranklist(p, block_dim, block_bits);
            partial_ranks.push(rl);
            p = p + 1;
        }

        self.n = n;
        self.block_dim = block_dim;
        self.super_block_dim = super_block_dim;
        self.block_num = block_num;
        self.super_block_num = super_block_num;
        self.block_bits = block_bits;
        self.super_block_bits = super_block_bits;
        self.n_bits = n_bits;
        self.block_ranks = block_ranks;
        self.super_block_ranks = super_block_ranks;
        self.partial_ranks = partial_ranks;
    }

    /// The number of set OR-bits strictly before `i`, in constant time:
    /// the superblock count, the block count within the superblock, and a
    /// table lookup for the tail of the block.
    pub fn rank(&self, i: usize, v0: &Str, v1: &Str) -> (r: usize)
        requires
            self.matches(bits_of(*v0), bits_of(*v1)),
            i <= bits_of(*v0).len(),
        ensures
            r == or_rank(bits_of(*v0), bits_of(*v1), i as int),
    {
        let ghost a = bits_of(*v0);
        let ghost b = bits_of(*v1);
        proof {
            lemma_ceil_div(self.n as int, self.super_block_dim as int);
            lemma_ceil_div(self.n as int, self.block_dim as int);
            lemma_div_is_ordered(i as int, (self.n - 1) as int, self.super_block_dim as int);
            lemma_div_is_ordered(i as int, (self.n - 1) as int, self.block_dim as int);
        }
        let sb_i = i / self.super_block_dim;
        let sb = rl_get(&self.super_block_ranks, sb_i);
        let bl_i = i / self.block_dim;
        let bl = rl_get(&self.block_ranks, bl_i);
        proof {
            lemma_mul_div_le(i as int, self.block_dim as int);
        }
        let l = i - (i % self.block_dim);
        let pattern = Self::get_index(l, l + self.block_dim, v0, v1);
        proof {
            lemma_pattern_bound(a, b, l as int, (l + self.block_dim) as int);
        }
        let within = rl_get(&self.partial_ranks[pattern], i % self.block_dim);
        proof {
            // the block and superblock entries compose to the count below l
            assert(bl_i * self.block_dim == l) by {
                vstd::arithmetic::mul::lemma_mul_is_commutative(
                    self.block_dim as int,
                    bl_i as int,
                );
            }
            lemma_block_align(i as int, self.block_dim as int, self.super_block_dim as int);
            assert(values_of(self.block_ranks)[bl_i as int] == or_rank(a, b, l as int) - or_rank(
                a,
                b,
                (l as int / self.super_block_dim as int) * self.super_block_dim,
            ));
            assert(values_of(self.super_block_ranks)[sb_i as int] == or_rank(
                a,
                b,
                sb_i as int * self.super_block_dim,
            ));
            assert(sb_i as int * self.super_block_dim == (l as int / self.super_block_dim as int)
                * self.super_block_dim);
            // the table entry counts the tail inside the block
            lemma_pat_rank_or(a, b, l as int, (l + self.block_dim) as int, (i % self.block_dim) as int);
            lemma_or_rank_bounds(a, b, i as int);
            lemma_mul_div_le(l as int, self.super_block_dim as int);
            lemma_mul_div_le(i as int, self.super_block_dim as int);
            lemma_or_rank_monotone(a, b, (sb_i as int) * self.super_block_dim, l as int);
            lemma_or_rank_monotone(a, b, l as int, i as int);
            lemma_or_rank_bounds(a, b, (sb_i as int) * self.super_block_dim);
        }
        sb + bl + within
    }
}

/// A rank structure that scans the arrays on every query.
pub struct NaiveRank;

impl NaiveRank {
    pub fn new() -> (r: NaiveRank) {
        NaiveRank {  }
    }

    /// Nothing is precomputed.
    pub fn build(&mut self, _v0: &Str, _v1: &Str) {
    }

    /// The number of set OR-bits strictly before `ind`, by scanning.
    pub fn rank(&self, ind: usize, v0: &Str, v1: &Str) -> (r: usize)
        requires
            ind < bits_of(*v0).len(),
            bits_of(*v0).len() == bits_of(*v1).len(),
        ensures
            r == or_rank(bits_of(*v0), bits_of(*v1), ind as int),
    {
        let mut res: usize = 0;
        let mut i: usize = 0;
        while i < ind
            invariant
                0 <= i <= ind,
                ind < bits_of(*v0).len(),
                bits_of(*v0).len() == bits_of(*v1).len(),
                res == or_rank(bits_of(*v0), bits_of(*v1), i as int),
                res <= i,
            decreases ind - i,
        {
            if str_get(v0, i) || str_get(v1, i) {
                res = res + 1;
            }
            i = i + 1;
        }
        res
    }
}

impl crate::traits::RankStructure for NaiveRank {
    open spec fn inv(&self, a: Seq<bool>, b: Seq<bool>) -> bool {
        true
    }

    fn new() -> Self {
        NaiveRank::new()
    }

    fn build(&mut self, v0: &Str, v1: &Str) {
        NaiveRank::build(self, v0, v1)
    }

    fn rank(&self, ind: usize, v0: &Str, v1: &Str) -> (r: usize) {
        NaiveRank::rank(self, ind, v0, v1)
    }
}

impl crate::traits::RankStructure for JacobsonRank {
    open spec fn inv(&self, a: Seq<bool>, b: Seq<bool>) -> bool {
        self.matches(a, b)
    }

    fn new() -> Self {
        JacobsonRank::new()
    }

    fn build(&mut self, v0: &Str, v1: &Str) {
        JacobsonRank::build(self, v0, v1)
    }

    fn rank(&self, ind: usize, v0: &Str, v1: &Str) -> (r: usize) {
        JacobsonRank::rank(self, ind, v0, v1)
    }
}

} // verus!
