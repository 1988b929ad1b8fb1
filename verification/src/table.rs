//! The two primitives the precomputations are assembled from: a chunked
//! power-table fill (one fast exponentiation per chunk start, then a
//! sequential advance) and the in-place bit-reversal permutation.

use vstd::prelude::*;
use vstd::arithmetic::power2::pow2;
use vstd::arithmetic::div_mod::lemma_small_mod;
use crate::field::{fmul, fpow, lemma_fmul_assoc, lemma_fpow_bounds, mul_mod, pow_mod, Field};
use crate::bits::{bitreverse, lemma_rev_bits_bound, lemma_rev_bits_involution, rev_bits};

verus! {

/// `s` reordered so that slot `k` holds the entry natural order places at
/// index `rev_bits(k, l)`.
pub open spec fn bit_rev_seq(s: Seq<u64>, l: nat) -> Seq<u64> {
    Seq::new(s.len(), |k: int| s[rev_bits(k as nat, l) as int])
}

/// A power table scaled by a fixed shift: entry `i` is `shift * base^i`.
///
/// The table is filled in contiguous chunks of `chunk` entries: each chunk
/// computes its starting power by fast exponentiation, applies the shift once,
/// and then advances sequentially by one multiplication per slot.
#[verifier::loop_isolation(false)]
pub fn shifted_power_table(f: &Field, base: u64, shift: u64, len: usize, chunk: usize) -> (r: Vec<
    u64,
>)
    requires
        f.wf(),
        base < f.modulus,
        shift < f.modulus,
        chunk >= 1,
    ensures
        r@.len() == len,
        forall|i: int|
            0 <= i < len ==> r@[i] == fmul(f.modulus as int, shift as int, fpow(f.modulus as int, base as int, i as nat)),
{
    let ghost p: int = f.modulus as int;
    let mut table: Vec<u64> = Vec::new();
    while table.len() < len
        invariant
            f.wf(),
            base < f.modulus,
            shift < f.modulus,
            chunk >= 1,
            table@.len() <= len,
            forall|i: int|
                0 <= i < table@.len() ==> table@[i] == fmul(p, shift as int, fpow(p, base as int, i as nat)),
        decreases len - table.len(),
    {
        let start = table.len();
        let mut u: u64 = pow_mod(f, base, start as u64);
        u = mul_mod(f, shift, u);
        let mut j: usize = 0;
        while j < chunk && table.len() < len
            invariant
                f.wf(),
                base < f.modulus,
                shift < f.modulus,
                table@.len() == start + j,
                start + j <= len,
                start < len,
                u < f.modulus,
                u == fmul(p, shift as int, fpow(p, base as int, (start + j) as nat)),
                forall|i: int|
                    0 <= i < table@.len() ==> table@[i] == fmul(p, shift as int, fpow(p, base as int, i as nat)),
            decreases len - table.len(),
        {
            table.push(u);
            proof {
                lemma_fpow_bounds(p, base as int, (start + j) as nat);
                lemma_fmul_assoc(p, shift as int, fpow(p, base as int, (start + j) as nat), base as int);
            }
            u = mul_mod(f, u, base);
            j = j + 1;
        }
    }
    table
}

/// A plain power table: entry `i` is `base^i`; the empty table for length 0
/// and `[1]` for length 1.
pub fn power_table(f: &Field, base: u64, len: usize, chunk: usize) -> (r: Vec<u64>)
    requires
        f.wf(),
        base < f.modulus,
        chunk >= 1,
    ensures
        r@.len() == len,
        forall|i: int|
            0 <= i < len ==> r@[i] == fpow(f.modulus as int, base as int, i as nat),
{
    let ghost p: int = f.modulus as int;
    let t = shifted_power_table(f, base, 1, len, chunk);
    proof {
        assert forall|i: int| 0 <= i < len implies t@[i] == fpow(p, base as int, i as nat) by {
            lemma_fpow_bounds(p, base as int, i as nat);
            lemma_small_mod(fpow(p, base as int, i as nat) as nat, f.modulus as nat);
        }
    }
    t
}

/// Multiplies every entry of `t` by `factor`.
#[verifier::loop_isolation(false)]
pub fn scale_table(f: &Field, t: &mut Vec<u64>, factor: u64)
    requires
        f.wf(),
        factor < f.modulus,
        forall|i: int| 0 <= i < old(t)@.len() ==> old(t)@[i] < f.modulus,
    ensures
        final(t)@.len() == old(t)@.len(),
        forall|i: int|
            0 <= i < old(t)@.len() ==> final(t)@[i] == fmul(f.modulus as int, old(t)@[i] as int, factor as int),
{
    let ghost p: int = f.modulus as int;
    let len = t.len();
    let mut k: usize = 0;
    while k < len
        invariant
            f.wf(),
            factor < f.modulus,
            len == old(t)@.len(),
            t@.len() == len,
            k <= len,
            forall|i: int| k <= i < len ==> t@[i] == old(t)@[i],
            forall|i: int| 0 <= i < len ==> old(t)@[i] < f.modulus,
            forall|i: int| 0 <= i < k ==> t@[i] == fmul(p, old(t)@[i] as int, factor as int),
        decreases len - k,
    {
        let v = t[k];
        let w = mul_mod(f, v, factor);
        t[k] = w;
        k = k + 1;
    }
}

/// Permutes `t` in place so that slot `k` receives the entry natural order
/// places at index `rev_bits(k, log)`: each index is swapped with its
/// reversal, only when the index is the smaller of the pair, so no pair moves
/// twice. Applying the permutation twice restores the table.
#[verifier::loop_isolation(false)]
pub fn bit_reverse_permute(t: &mut Vec<u64>, log: u32)
    requires
        old(t)@.len() == pow2(log as nat),
    ensures
        final(t)@ == bit_rev_seq(old(t)@, log as nat),
{
    let len = t.len();
    let mut k: usize = 0;
    while k < len
        invariant
            t@.len() == len,
            len == pow2(log as nat),
            len == old(t)@.len(),
            k <= len,
            forall|j: int|
                0 <= j < len ==> #[trigger] t@[j] == (if j < k || rev_bits(j as nat, log as nat) < k as nat {
                    old(t)@[rev_bits(j as nat, log as nat) as int]
                } else {
                    old(t)@[j]
                }),
        decreases len - k,
    {
        let rk = bitreverse(k, log);
        proof {
            lemma_rev_bits_involution(k as nat, log as nat);
        }
        if k < rk {
            let a = t[k];
            let b = t[rk];
            t[k] = b;
            t[rk] = a;
            proof {
                assert forall|j: int| 0 <= j < len implies #[trigger] t@[j] == (if j < k + 1
                    || rev_bits(j as nat, log as nat) < (k + 1) as nat {
                    old(t)@[rev_bits(j as nat, log as nat) as int]
                } else {
                    old(t)@[j]
                }) by {
                    lemma_rev_bits_involution(j as nat, log as nat);
                    lemma_rev_bits_bound(j as nat, log as nat);
                }
            }
        } else {
            proof {
                assert forall|j: int| 0 <= j < len implies #[trigger] t@[j] == (if j < k + 1
                    || rev_bits(j as nat, log as nat) < (k + 1) as nat {
                    old(t)@[rev_bits(j as nat, log as nat) as int]
                } else {
                    old(t)@[j]
                }) by {
                    lemma_rev_bits_involution(j as nat, log as nat);
                    lemma_rev_bits_bound(j as nat, log as nat);
                }
            }
        }
        k = k + 1;
    }
    proof {
        assert forall|j: int| 0 <= j < len implies t@[j] == bit_rev_seq(old(t)@, log as nat)[j] by {
            lemma_rev_bits_bound(j as nat, log as nat);
        }
        assert(t@ =~= bit_rev_seq(old(t)@, log as nat));
    }
}

/// The bit-reversal permutation is an involution: applied twice to a table of
/// two-power length it restores the original sequence.
pub proof fn lemma_bit_reversal_involution(s: Seq<u64>, l: nat)
    requires
        s.len() == pow2(l),
    ensures
        bit_rev_seq(bit_rev_seq(s, l), l) == s,
{
    assert forall|k: int| 0 <= k < s.len() implies bit_rev_seq(bit_rev_seq(s, l), l)[k] == s[k] by {
        lemma_rev_bits_bound(k as nat, l);
        lemma_rev_bits_involution(k as nat, l);
    }
    assert(bit_rev_seq(bit_rev_seq(s, l), l) =~= s);
}

/// A bit-reversed table holds at slot `k` exactly the entry its natural-order
/// counterpart holds at the reversed index.
pub proof fn lemma_bit_reversed_lookup(s: Seq<u64>, l: nat, k: int)
    requires
        s.len() == pow2(l),
        0 <= k < s.len(),
    ensures
        bit_rev_seq(s, l)[k] == s[rev_bits(k as nat, l) as int],
{
    lemma_rev_bits_bound(k as nat, l);
}

/// On tables of length at most two the bit-reversal permutation is the
/// identity.
pub proof fn lemma_bit_rev_seq_identity(s: Seq<u64>, l: nat)
    requires
        l <= 1,
        s.len() == pow2(l),
    ensures
        bit_rev_seq(s, l) == s,
{
    assert(pow2(0) == 1 && pow2(1) == 2) by {
        vstd::arithmetic::power2::lemma2_to64();
    }
    assert forall|k: int| 0 <= k < s.len() implies bit_rev_seq(s, l)[k] == s[k] by {
        lemma_rev_bits_bound(k as nat, l);
        if l == 1 {
            assert(rev_bits(k as nat, 1) == rev_bits((k as nat) / 2, 0) + ((k as nat) % 2) * pow2(0));
        }
    }
    assert(bit_rev_seq(s, l) =~= s);
}

} // verus!
