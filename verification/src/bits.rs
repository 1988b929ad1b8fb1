//! Two-power bookkeeping: recognizing power-of-two sizes, taking their
//! logarithm, and reversing the low bits of an index — the permutation that
//! decimation-in-time butterfly networks read tables through.

use vstd::prelude::*;
use vstd::arithmetic::power2::{lemma_pow2_pos, lemma_pow2_strictly_increases, lemma_pow2_unfold, pow2};
use vstd::arithmetic::div_mod::{
    lemma_div_denominator, lemma_fundamental_div_mod, lemma_fundamental_div_mod_converse,
    lemma_mod_bound, lemma_mod_breakdown, lemma_mod_multiples_vanish, lemma_small_mod,
};
use vstd::arithmetic::mul::{
    lemma_mul_inequality, lemma_mul_is_commutative, lemma_mul_is_distributive_add,
};

verus! {

/// Whether `n` is a power of two.
pub open spec fn is_power_of_two(n: nat) -> bool
    decreases n,
{
    if n == 0 {
        false
    } else if n == 1 {
        true
    } else {
        n % 2 == 0 && is_power_of_two(n / 2)
    }
}

/// The exact base-two logarithm of a power of two (and the floor of it
/// otherwise).
pub open spec fn exact_log2(n: nat) -> nat
    decreases n,
{
    if n <= 1 {
        0
    } else {
        1 + exact_log2(n / 2)
    }
}

pub proof fn lemma_pow2_exact_log2(n: nat)
    requires
        is_power_of_two(n),
    ensures
        pow2(exact_log2(n)) == n,
    decreases n,
{
    if n == 1 {
        assert(pow2(0) == 1) by {
            vstd::arithmetic::power2::lemma2_to64();
        }
    } else {
        lemma_pow2_exact_log2(n / 2);
        lemma_pow2_unfold(exact_log2(n));
    }
}

/// A power of two at least 2 halves to a power of two, one logarithm step down.
pub proof fn lemma_power_of_two_halves(n: nat)
    requires
        is_power_of_two(n),
        n >= 2,
    ensures
        is_power_of_two(n / 2),
        exact_log2(n) == 1 + exact_log2(n / 2),
        n / 2 >= 1,
{
}

/// Two powers of two that bracket the same value coincide.
pub proof fn lemma_log2_floor_unique(n: nat, l: nat, e: nat)
    requires
        pow2(l) <= n < pow2(l + 1),
        pow2(e) == n,
    ensures
        l == e,
{
    if l < e {
        if l + 1 < e {
            lemma_pow2_strictly_increases(l + 1, e);
        }
        assert(pow2(l + 1) <= pow2(e));
    } else if e < l {
        lemma_pow2_strictly_increases(e, l);
    }
}

/// The low `l` bits of `k`, in reversed order.
pub open spec fn rev_bits(k: nat, l: nat) -> nat
    decreases l,
{
    if l == 0 {
        0
    } else {
        rev_bits(k / 2, (l - 1) as nat) + (k % 2) * pow2((l - 1) as nat)
    }
}

pub proof fn lemma_rev_bits_bound(k: nat, l: nat)
    ensures
        rev_bits(k, l) < pow2(l),
    decreases l,
{
    lemma_pow2_pos(l);
    if l > 0 {
        lemma_rev_bits_bound(k / 2, (l - 1) as nat);
        lemma_pow2_unfold(l);
        lemma_mul_inequality((k % 2) as int, 1, pow2((l - 1) as nat) as int);
    }
}

/// Reversing one more bit appends the next bit of `k` at the bottom.
pub proof fn lemma_rev_bits_step(k: nat, l: nat)
    ensures
        rev_bits(k, l + 1) == 2 * rev_bits(k, l) + (k / pow2(l)) % 2,
    decreases l,
{
    if l == 0 {
        assert(pow2(0) == 1) by {
            vstd::arithmetic::power2::lemma2_to64();
        }
        assert(rev_bits(k, 1) == rev_bits(k / 2, 0) + (k % 2) * pow2(0));
    } else {
        lemma_rev_bits_step(k / 2, (l - 1) as nat);
        lemma_pow2_unfold(l);
        lemma_pow2_pos((l - 1) as nat);
        lemma_div_denominator(k as int, 2, pow2((l - 1) as nat) as int);
        assert((k / 2) / pow2((l - 1) as nat) == k / pow2(l));
        assert(rev_bits(k, l + 1) == rev_bits(k / 2, l) + (k % 2) * pow2(l));
        assert(rev_bits(k / 2, l) == 2 * rev_bits(k / 2, (l - 1) as nat) + (k / pow2(l)) % 2);
        assert((k % 2) * pow2(l) == (k % 2) * (2 * pow2((l - 1) as nat))) by {
            lemma_pow2_unfold(l);
        }
        assert((k % 2) * (2 * pow2((l - 1) as nat)) == 2 * ((k % 2) * pow2((l - 1) as nat)))
            by (nonlinear_arith);
        assert(2 * rev_bits(k / 2, (l - 1) as nat) + 2 * ((k % 2) * pow2((l - 1) as nat)) == 2
            * (rev_bits(k / 2, (l - 1) as nat) + (k % 2) * pow2((l - 1) as nat))) by {
            lemma_mul_is_distributive_add(2, rev_bits(k / 2, (l - 1) as nat) as int, ((k % 2)
                * pow2((l - 1) as nat)) as int);
        }
    }
}

/// Only the low `l` bits of `k` enter its reversal.
pub proof fn lemma_rev_bits_low(k: nat, l: nat)
    ensures
        rev_bits(k, l) == rev_bits(k % pow2(l), l),
    decreases l,
{
    lemma_pow2_pos(l);
    if l > 0 {
        lemma_pow2_pos((l - 1) as nat);
        lemma_pow2_unfold(l);
        lemma_mod_breakdown(k as int, 2, pow2((l - 1) as nat) as int);
        assert(k % pow2(l) == 2 * ((k / 2) % pow2((l - 1) as nat)) + k % 2);
        lemma_mod_bound(k as int / 2, pow2((l - 1) as nat) as int);
        lemma_fundamental_div_mod_converse(
            (k % pow2(l)) as int,
            2,
            ((k / 2) % pow2((l - 1) as nat)) as int,
            (k % 2) as int,
        );
        assert((k % pow2(l)) / 2 == (k / 2) % pow2((l - 1) as nat));
        assert((k % pow2(l)) % 2 == k % 2);
        lemma_rev_bits_low(k / 2, (l - 1) as nat);
    }
}

/// Reversal read from the top: the high bit of `k` lands at the bottom.
pub proof fn lemma_rev_bits_split_high(k: nat, l: nat)
    requires
        l >= 1,
        k < pow2(l),
    ensures
        rev_bits(k, l) == 2 * rev_bits(k % pow2((l - 1) as nat), (l - 1) as nat) + k / pow2(
            (l - 1) as nat,
        ),
{
    lemma_rev_bits_step(k, (l - 1) as nat);
    lemma_pow2_pos((l - 1) as nat);
    lemma_pow2_unfold(l);
    assert(k < 2 * pow2((l - 1) as nat));
    assert(k / pow2((l - 1) as nat) < 2) by {
        vstd::arithmetic::div_mod::lemma_multiply_divide_lt(
            k as int,
            pow2((l - 1) as nat) as int,
            2,
        );
    }
    lemma_small_mod((k / pow2((l - 1) as nat)) as nat, 2);
    lemma_rev_bits_low(k, (l - 1) as nat);
}

/// Bit reversal is an involution on `[0, 2^l)`.
pub proof fn lemma_rev_bits_involution(k: nat, l: nat)
    requires
        k < pow2(l),
    ensures
        rev_bits(rev_bits(k, l), l) == k,
    decreases l,
{
    lemma_pow2_pos(l);
    if l == 0 {
        assert(pow2(0) == 1) by {
            vstd::arithmetic::power2::lemma2_to64();
        }
    } else {
        let lp = (l - 1) as nat;
        let r1 = rev_bits(k / 2, lp);
        let b = k % 2;
        lemma_rev_bits_bound(k / 2, lp);
        lemma_pow2_pos(lp);
        lemma_pow2_unfold(l);
        assert(rev_bits(k, l) == r1 + b * pow2(lp));
        lemma_rev_bits_bound(k, l);
        lemma_rev_bits_split_high(rev_bits(k, l), l);
        // (r1 + b * pow2(lp)) % pow2(lp) == r1 and the quotient is b
        assert((r1 + b * pow2(lp)) % pow2(lp) == r1 as int % pow2(lp) as int) by {
            lemma_mul_is_commutative(b as int, pow2(lp) as int);
            lemma_mod_multiples_vanish(b as int, r1 as int, pow2(lp) as int);
        }
        lemma_small_mod(r1, pow2(lp));
        assert((r1 + b * pow2(lp)) / pow2(lp) == b) by {
            lemma_mul_is_commutative(b as int, pow2(lp) as int);
            lemma_fundamental_div_mod_converse(
                (r1 + b * pow2(lp)) as int,
                pow2(lp) as int,
                b as int,
                r1 as int,
            );
        }
        assert(k / 2 < pow2(lp)) by {
            vstd::arithmetic::div_mod::lemma_multiply_divide_lt(k as int, 2, pow2(lp) as int);
            lemma_mul_is_commutative(2, pow2(lp) as int);
        }
        lemma_rev_bits_involution(k / 2, lp);
        assert(rev_bits(rev_bits(k, l), l) == 2 * (k / 2) + b);
        lemma_fundamental_div_mod(k as int, 2);
    }
}

/// Whether `n` is a power of two.
#[verifier::loop_isolation(false)]
pub fn check_power_of_two(n: u64) -> (r: bool)
    ensures
        r == is_power_of_two(n as nat),
{
    if n == 0 {
        return false;
    }
    let mut m: u64 = n;
    while m > 1
        invariant
            m >= 1,
            is_power_of_two(n as nat) == is_power_of_two(m as nat),
        decreases m,
    {
        if m % 2 != 0 {
            return false;
        }
        m = m / 2;
    }
    true
}

/// The floor of the base-two logarithm of `n`.
#[verifier::loop_isolation(false)]
pub fn log2_floor(n: u64) -> (r: u32)
    requires
        n >= 1,
    ensures
        pow2(r as nat) <= n < pow2(r as nat + 1),
        r < 64,
        is_power_of_two(n as nat) ==> pow2(r as nat) == n && r == exact_log2(n as nat),
{
    let mut l: u32 = 0;
    let mut m: u64 = n;
    proof {
        assert(pow2(0) == 1) by {
            vstd::arithmetic::power2::lemma2_to64();
        }
    }
    while m >= 2
        invariant
            n >= 1,
            m >= 1,
            l < 64,
            pow2(l as nat) * m <= n < pow2(l as nat) * (m + 1),
        decreases m,
    {
        proof {
            let pl = pow2(l as nat) as int;
            lemma_pow2_pos(l as nat);
            lemma_pow2_unfold((l + 1) as nat);
            lemma_fundamental_div_mod(m as int, 2);
            // lower bound: pow2(l + 1) * (m / 2) <= pow2(l) * m
            assert((2 * pl) * ((m as int) / 2) <= pl * (m as int)) by (nonlinear_arith)
                requires
                    pl > 0,
                    m as int == 2 * ((m as int) / 2) + (m as int) % 2,
                    0 <= (m as int) % 2,
            ;
            // upper bound: pow2(l) * (m + 1) <= pow2(l + 1) * (m / 2 + 1)
            assert(pl * (m as int + 1) <= (2 * pl) * ((m as int) / 2 + 1)) by (nonlinear_arith)
                requires
                    pl > 0,
                    m as int == 2 * ((m as int) / 2) + (m as int) % 2,
                    (m as int) % 2 < 2,
            ;
            // l stays below 63: pow2(l + 1) <= pow2(l + 1) * (m / 2) <= n < pow2(64)
            assert(2 * pl <= (2 * pl) * ((m as int) / 2)) by (nonlinear_arith)
                requires
                    pl > 0,
                    (m as int) / 2 >= 1,
            ;
            assert(pow2(64) > u64::MAX) by {
                vstd::arithmetic::power2::lemma2_to64();
                vstd::arithmetic::power2::lemma2_to64_rest();
            }
            if l + 1 >= 64 {
                if ((l + 1) as nat) > 64 {
                    lemma_pow2_strictly_increases(64, (l + 1) as nat);
                }
                assert(pow2((l + 1) as nat) >= pow2(64));
                assert(false);
            }
        }
        m = m / 2;
        l = l + 1;
    }
    proof {
        lemma_pow2_pos(l as nat);
        lemma_pow2_unfold((l + 1) as nat);
        assert(pow2(l as nat) * 1 == pow2(l as nat));
        assert(pow2(l as nat) * (1 + 1) == 2 * pow2(l as nat)) by (nonlinear_arith);
        if is_power_of_two(n as nat) {
            lemma_pow2_exact_log2(n as nat);
            lemma_log2_floor_unique(n as nat, l as nat, exact_log2(n as nat));
        }
    }
    l
}

/// The low `l` bits of `k`, reversed; the index map of the bit-reversal
/// permutation.
#[verifier::loop_isolation(false)]
pub fn bitreverse(k: usize, l: u32) -> (r: usize)
    requires
        pow2(l as nat) <= usize::MAX,
    ensures
        r == rev_bits(k as nat, l as nat),
        r < pow2(l as nat),
{
    let mut r: usize = 0;
    let mut x: usize = k;
    let mut i: u32 = 0;
    proof {
        assert(pow2(0) == 1) by {
            vstd::arithmetic::power2::lemma2_to64();
        }
    }
    while i < l
        invariant
            i <= l,
            pow2(l as nat) <= usize::MAX,
            x == (k as nat) / pow2(i as nat),
            r == rev_bits(k as nat, i as nat),
            r < pow2(i as nat),
        decreases l - i,
    {
        proof {
            lemma_rev_bits_step(k as nat, i as nat);
            lemma_pow2_pos(i as nat);
            lemma_pow2_unfold((i + 1) as nat);
            lemma_div_denominator(k as int, pow2(i as nat) as int, 2);
            assert(pow2(i as nat) * 2 == 2 * pow2(i as nat)) by {
                lemma_mul_is_commutative(pow2(i as nat) as int, 2);
            }
            if i as nat + 1 <= l as nat && pow2((i + 1) as nat) > pow2(l as nat) {
                if ((i + 1) as nat) < l as nat {
                    lemma_pow2_strictly_increases((i + 1) as nat, l as nat);
                }
                assert(false);
            }
        }
        r = 2 * r + x % 2;
        x = x / 2;
        i = i + 1;
    }
    proof {
        lemma_rev_bits_bound(k as nat, l as nat);
    }
    r
}

} // verus!
