//! Bit tricks behind the fat binary search: the mask that clears the bits
//! below the first power of two exceeding a value, and the 2-fattest number
//! of a depth range.

use vstd::prelude::*;
use vstd::arithmetic::power2::{pow2, lemma_pow2_pos, lemma_pow2_unfold};
use vstd::arithmetic::div_mod::{lemma_div_denominator, lemma_fundamental_div_mod, lemma_div_is_ordered, lemma_basic_div, lemma_div_non_zero, lemma_mod_division_less_than_divisor};
use vstd::arithmetic::mul::lemma_mul_inequality;

verus! {

/// `k` is the least exponent with `pow2(k) > i`.
pub open spec fn least_exceeding(i: usize, k: nat) -> bool {
    &&& i < pow2(k)
    &&& (k == 0 || pow2((k - 1) as nat) <= i)
}

/// The mask with ones everywhere except the `k` lowest bits, as a number:
/// everything of the word above `pow2(k)`.
pub open spec fn mask_above(k: nat) -> int {
    usize::MAX - pow2(k) + 1
}

/// The mask that clears the lowest `k` bits of a word, for the least `k`
/// with `pow2(k) > i`.
pub fn calc(i: usize) -> (r: usize)
    requires
        i <= usize::MAX / 2,
    ensures
        exists|k: nat| #[trigger] least_exceeding(i, k) && r == mask_above(k),
{
    let mut t: usize = i;
    let mut p: usize = 1;
    let ghost mut k: nat = 0nat;
    proof {
        vstd::arithmetic::power2::lemma2_to64();
    }
    while t > 0
        invariant
            p == pow2(k),
            t == i as int / pow2(k) as int,
            k == 0 || pow2((k - 1) as nat) <= i,
            i <= usize::MAX / 2,
        decreases t,
    {
        proof {
            lemma_pow2_pos(k);
            // entering the body, i / pow2(k) >= 1, so pow2(k) <= i
            assert(pow2(k) <= i) by {
                if pow2(k) > i {
                    lemma_basic_div(i as int, pow2(k) as int);
                }
            }
            lemma_pow2_unfold(k + 1);
            lemma_div_denominator(i as int, pow2(k) as int, 2);
        }
        t = t / 2;
        p = p * 2;
        proof {
            k = k + 1nat;
        }
    }
    proof {
        lemma_pow2_pos(k);
        assert(i < pow2(k)) by {
            if i >= pow2(k) {
                lemma_div_non_zero(i as int, pow2(k) as int);
            }
        }
        assert(least_exceeding(i, k));
    }
    let r: usize = usize::MAX - (p - 1);
    proof {
        assert(r == mask_above(k));
    }
    r
}

/// `j` is the highest bit position in which `low - 1` and `x` differ, and
/// `r` is `x` with its `j` lowest bits cleared.
pub open spec fn fattest_witness(x: usize, low: usize, r: usize, j: nat) -> bool {
    let a = low - 1;
    &&& a / pow2(j + 1) as int == x as int / pow2(j + 1) as int
    &&& a / pow2(j) as int != x as int / pow2(j) as int
    &&& r == (x as int / pow2(j) as int) * pow2(j)
}

/// The 2-fattest number in the range `[low, x]`: the member with the most
/// trailing zero bits. For `low == 0` the answer is 0 by convention.
pub fn get_fattest(x: usize, low: usize) -> (r: usize)
    requires
        low <= x,
    ensures
        low == 0 ==> r == 0,
        low >= 1 ==> low <= r <= x,
        low >= 1 ==> exists|j: nat| #[trigger] fattest_witness(x, low, r, j),
{
    if low == 0 {
        return 0;
    }
    let a: usize = low - 1;
    let mut qa: usize = a;
    let mut qx: usize = x;
    let mut p: usize = 1;
    let ghost mut j: nat = 0nat;
    proof {
        vstd::arithmetic::power2::lemma2_to64();
    }
    while qa / 2 != qx / 2
        invariant
            a < x,
            p == pow2(j),
            qa == a as int / pow2(j) as int,
            qx == x as int / pow2(j) as int,
            qa <= qx,
            qa != qx,
        decreases qx,
    {
        proof {
            lemma_pow2_pos(j);
            lemma_pow2_unfold(j + 1);
            lemma_div_denominator(a as int, pow2(j) as int, 2);
            lemma_div_denominator(x as int, pow2(j) as int, 2);
            lemma_div_is_ordered(qa as int, qx as int, 2);
            assert(qx / 2 >= 1);
            // hence pow2(j + 1) <= x, so the doubling of p cannot overflow
            lemma_pow2_pos(j + 1);
            assert(pow2(j + 1) == 2 * pow2(j));
            assert(x as int / pow2(j + 1) as int == qx / 2);
            assert(x as int / pow2(j + 1) as int >= 1);
            lemma_fundamental_div_mod(x as int, pow2(j + 1) as int);
            lemma_mod_division_less_than_divisor(x as int, pow2(j + 1) as int);
            lemma_mul_inequality(1, x as int / pow2(j + 1) as int, pow2(j + 1) as int);
            assert(1 * pow2(j + 1) as int <= (x as int / pow2(j + 1) as int) * pow2(j + 1) as int);
            assert(pow2(j + 1) <= x);
        }
        qa = qa / 2;
        qx = qx / 2;
        p = p * 2;
        proof {
            j = j + 1nat;
        }
    }
    proof {
        lemma_pow2_pos(j);
        lemma_pow2_unfold(j + 1);
        lemma_div_denominator(a as int, pow2(j) as int, 2);
        lemma_div_denominator(x as int, pow2(j) as int, 2);
        assert(a as int / pow2(j + 1) as int == x as int / pow2(j + 1) as int);
        // no overflow in qx * p: it equals x minus its remainder modulo pow2(j)
        lemma_fundamental_div_mod(x as int, pow2(j) as int);
        lemma_mod_division_less_than_divisor(x as int, pow2(j) as int);
        assert(qx as int * p as int <= x as int);
    }
    let r: usize = qx * p;
    proof {
        lemma_pow2_pos(j);
        lemma_fundamental_div_mod(x as int, pow2(j) as int);
        lemma_fundamental_div_mod(a as int, pow2(j) as int);
        lemma_mod_division_less_than_divisor(a as int, pow2(j) as int);
        assert(r <= x);
        // r > a: the quotient of x is strictly larger, so qx * p >= (qa + 1) * p > a
        assert((qa + 1) * pow2(j) <= qx * pow2(j)) by {
            lemma_mul_inequality(qa + 1, qx as int, pow2(j) as int);
        }
        assert(qa * pow2(j) + pow2(j) > a);
        assert((qa + 1) * pow2(j) == qa * pow2(j) + pow2(j)) by {
            vstd::arithmetic::mul::lemma_mul_is_distributive_add_other_way(pow2(j) as int, qa as int, 1);
        }
        assert(fattest_witness(x, low, r, j));
    }
    r
}

/// No number in `[low, x]` has more trailing zero bits than the 2-fattest
/// number: nothing there is divisible by the next power of two.
pub proof fn lemma_fattest_no_fatter(x: usize, low: usize, r: usize, j: nat, g: int)
    requires
        1 <= low <= x,
        fattest_witness(x, low, r, j),
        low <= g <= x,
    ensures
        g % pow2(j + 1) as int != 0,
{
    let a = low - 1;
    let q = pow2(j + 1) as int;
    lemma_pow2_pos(j + 1);
    if g % q == 0 {
        lemma_fundamental_div_mod(g, q);
        lemma_div_is_ordered(g, x as int, q);
        lemma_div_is_ordered(a, g, q);
        // g is a positive multiple of q lying in (a, x], so its quotient exceeds a's
        assert(g == (g / q) * q);
        if g / q == a / q {
            lemma_fundamental_div_mod(a, q);
            assert(a % q >= 0 && a % q < q) by {
                vstd::arithmetic::div_mod::lemma_mod_bound(a, q);
            }
            assert(g <= a);
        } else {
            assert(g / q > a / q);
            assert(g / q > x as int / q);
        }
    }
}

} // verus!
