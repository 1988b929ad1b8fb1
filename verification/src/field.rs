//! A concrete prime-field model: elements are `u64` residues below the
//! modulus, and the field description carries the constants the
//! precomputations read (the fixed multiplicative generator and a root of
//! unity of two-power order).

use vstd::prelude::*;
use vstd::arithmetic::div_mod::{
    lemma_mod_bound, lemma_mul_mod_noop_left, lemma_mul_mod_noop_right, lemma_small_mod,
};
use vstd::arithmetic::mul::{
    lemma_mul_is_associative, lemma_mul_is_commutative, lemma_mul_nonnegative,
    lemma_mul_upper_bound,
};

verus! {

/// Description of a prime field of odd characteristic `modulus`.
///
/// `generator` is the field's fixed multiplicative generator (used for coset
/// shifts), and `root_of_unity` is an element of multiplicative order
/// `2^two_adicity`, from which domain generators of any supported two-power
/// size are derived.
#[derive(Clone, Copy, Debug, PartialEq, Eq, Structural)]
pub struct Field {
    pub modulus: u64,
    pub generator: u64,
    pub root_of_unity: u64,
    pub two_adicity: u32,
}

impl Field {
    pub open spec fn wf(self) -> bool {
        &&& self.modulus >= 2
        &&& 0 < self.generator < self.modulus
        &&& 0 < self.root_of_unity < self.modulus
        &&& self.two_adicity < 64
    }
}

/// The product of `a` and `b` in the field of modulus `p`.
pub open spec fn fmul(p: int, a: int, b: int) -> int {
    (a * b) % p
}

/// `b` raised to the `e`-th power in the field of modulus `p`.
pub open spec fn fpow(p: int, b: int, e: nat) -> int
    decreases e,
{
    if e == 0 {
        1int % p
    } else {
        fmul(p, fpow(p, b, (e - 1) as nat), b)
    }
}

/// Whether `a` has a multiplicative inverse modulo `p`.
pub open spec fn has_inverse(p: int, a: int) -> bool {
    exists|x: int| 0 <= x < p && fmul(p, a, x) == 1
}

/// The multiplicative inverse of `a` modulo `p`, where one exists.
pub open spec fn finv(p: int, a: int) -> int {
    choose|x: int| 0 <= x < p && fmul(p, a, x) == 1
}

pub proof fn lemma_fmul_bounds(p: int, a: int, b: int)
    requires
        p >= 1,
        0 <= a,
        0 <= b,
    ensures
        0 <= fmul(p, a, b) < p,
{
    lemma_mul_nonnegative(a, b);
    lemma_mod_bound(a * b, p);
}

pub proof fn lemma_fmul_comm(p: int, a: int, b: int)
    ensures
        fmul(p, a, b) == fmul(p, b, a),
{
    lemma_mul_is_commutative(a, b);
}

pub proof fn lemma_fmul_assoc(p: int, a: int, b: int, c: int)
    requires
        p >= 1,
    ensures
        fmul(p, fmul(p, a, b), c) == fmul(p, a, fmul(p, b, c)),
{
    lemma_mul_mod_noop_left(a * b, c, p);
    lemma_mul_mod_noop_right(a, b * c, p);
    lemma_mul_is_associative(a, b, c);
}

pub proof fn lemma_fpow_bounds(p: int, b: int, e: nat)
    requires
        p >= 1,
        0 <= b,
    ensures
        0 <= fpow(p, b, e) < p,
    decreases e,
{
    if e == 0 {
        lemma_mod_bound(1, p);
    } else {
        lemma_fpow_bounds(p, b, (e - 1) as nat);
        lemma_fmul_bounds(p, fpow(p, b, (e - 1) as nat), b);
    }
}

/// Squaring the base halves the exponent: the step fast exponentiation rests on.
pub proof fn lemma_fpow_square(p: int, b: int, k: nat)
    requires
        p >= 1,
        0 <= b,
    ensures
        fpow(p, b, 2 * k) == fpow(p, fmul(p, b, b), k),
    decreases k,
{
    if k > 0 {
        lemma_fpow_square(p, b, (k - 1) as nat);
        lemma_fpow_bounds(p, b, (2 * k - 2) as nat);
        assert(fpow(p, b, 2 * k) == fmul(p, fpow(p, b, (2 * k - 1) as nat), b));
        assert(fpow(p, b, (2 * k - 1) as nat) == fmul(p, fpow(p, b, (2 * k - 2) as nat), b));
        lemma_fmul_assoc(p, fpow(p, b, (2 * k - 2) as nat), b, b);
        lemma_fmul_bounds(p, b, b);
    }
}

/// The inverse of an element, where it exists, is unique.
pub proof fn lemma_inverse_unique(p: int, a: int, x: int, y: int)
    requires
        p >= 2,
        0 <= a < p,
        0 <= x < p,
        0 <= y < p,
        fmul(p, a, x) == 1,
        fmul(p, a, y) == 1,
    ensures
        x == y,
{
    // x == (x * (a * y)) % p == ((a * x) * y) % p == y
    lemma_small_mod(x as nat, p as nat);
    lemma_mul_mod_noop_right(x, a * y, p);
    assert((x * ((a * y) % p)) % p == (x * (a * y)) % p);
    assert(x * (a * y) == (a * x) * y) by {
        lemma_mul_is_associative(x, a, y);
        lemma_mul_is_commutative(x, a);
    }
    lemma_mul_mod_noop_left(a * x, y, p);
    assert((((a * x) % p) * y) % p == ((a * x) * y) % p);
    lemma_mul_is_commutative(a, x);
    lemma_small_mod(y as nat, p as nat);
    assert(x == (x * 1) % p);
    assert((1 * y) % p == y);
}

/// Modular product of two residues.
pub fn mul_mod(f: &Field, a: u64, b: u64) -> (r: u64)
    requires
        f.wf(),
        a < f.modulus,
        b < f.modulus,
    ensures
        r == fmul(f.modulus as int, a as int, b as int),
        r < f.modulus,
{
    proof {
        lemma_mul_upper_bound(a as int, u64::MAX as int, b as int, u64::MAX as int);
        lemma_fmul_bounds(f.modulus as int, a as int, b as int);
    }
    let prod: u128 = (a as u128) * (b as u128);
    (prod % (f.modulus as u128)) as u64
}

/// Modular exponentiation by squaring.
#[verifier::loop_isolation(false)]
pub fn pow_mod(f: &Field, b: u64, e: u64) -> (r: u64)
    requires
        f.wf(),
        b < f.modulus,
    ensures
        r == fpow(f.modulus as int, b as int, e as nat),
        r < f.modulus,
{
    let ghost p: int = f.modulus as int;
    let mut r: u64 = 1;
    let mut c: u64 = b;
    let mut m: u64 = e;
    proof {
        lemma_fpow_bounds(p, b as int, e as nat);
        lemma_small_mod(fpow(p, b as int, e as nat) as nat, f.modulus as nat);
        lemma_mul_is_commutative(1, fpow(p, b as int, e as nat));
    }
    while m > 0
        invariant
            f.wf(),
            r < f.modulus,
            c < f.modulus,
            fpow(p, b as int, e as nat) == fmul(p, r as int, fpow(p, c as int, m as nat)),
        decreases m,
    {
        let ghost r0: int = r as int;
        let ghost c0: int = c as int;
        let ghost m0: nat = m as nat;
        if m % 2 == 1 {
            r = mul_mod(f, r, c);
        }
        c = mul_mod(f, c, c);
        m = m / 2;
        proof {
            lemma_fpow_bounds(p, c0, m0);
            lemma_fpow_bounds(p, c0, (m0 - 1) as nat);
            lemma_fpow_bounds(p, fmul(p, c0, c0), m as nat);
            lemma_fpow_square(p, c0, m as nat);
            if m0 % 2 == 1 {
                // m0 == 2 * (m0 / 2) + 1
                assert(fpow(p, c0, m0) == fmul(p, fpow(p, c0, (m0 - 1) as nat), c0));
                lemma_fmul_comm(p, fpow(p, c0, (m0 - 1) as nat), c0);
                lemma_fmul_assoc(p, r0, c0, fpow(p, c0, (m0 - 1) as nat));
                lemma_fmul_comm(p, r0, c0);
                assert(2 * (m0 / 2) == (m0 - 1) as nat);
            } else {
                assert(2 * (m0 / 2) == m0);
            }
        }
    }
    proof {
        // fpow(c, 0) == 1 and fmul(r, 1) == r
        lemma_small_mod(1nat, f.modulus as nat);
        lemma_small_mod(r as nat, f.modulus as nat);
        assert(fmul(p, r as int, 1) == r as int % p);
    }
    r
}

/// Multiplicative inverse of a residue, by exhaustive search; `None` exactly
/// when no inverse exists (in particular for the additive identity).
#[verifier::loop_isolation(false)]
pub fn inv_mod(f: &Field, a: u64) -> (r: Option<u64>)
    requires
        f.wf(),
        a < f.modulus,
    ensures
        match r {
            Some(v) => {
                &&& v < f.modulus
                &&& fmul(f.modulus as int, a as int, v as int) == 1
                &&& has_inverse(f.modulus as int, a as int)
                &&& v == finv(f.modulus as int, a as int)
            },
            None => !has_inverse(f.modulus as int, a as int),
        },
{
    let ghost p: int = f.modulus as int;
    let mut x: u64 = 0;
    while x < f.modulus
        invariant
            f.wf(),
            x <= f.modulus,
            forall|j: int| 0 <= j < x ==> fmul(p, a as int, j) != 1,
        decreases f.modulus - x,
    {
        if mul_mod(f, a, x) == 1 {
            proof {
                let w = finv(p, a as int);
                assert(0 <= w < p && fmul(p, a as int, w) == 1);
                lemma_inverse_unique(p, a as int, x as int, w);
            }
            return Some(x);
        }
        x = x + 1;
    }
    proof {
        if has_inverse(p, a as int) {
            let w = choose|y: int| 0 <= y < p && fmul(p, a as int, y) == 1;
            assert(fmul(p, a as int, w) != 1);
        }
    }
    None
}

} // verus!
