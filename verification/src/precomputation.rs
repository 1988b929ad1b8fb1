//! The four precomputation variants assembled from the power-table generator
//! and the bit-reversal permutation: forward-and-inverse, inverse-only,
//! bit-reversed inverse, and coset-shifted bit-reversed inverse tables.
//!
//! Every build is deterministic: the tables are pinned down by the field and
//! the domain alone, whatever chunk size or worker count fills them.

use vstd::prelude::*;
use vstd::arithmetic::power2::pow2;
use vstd::arithmetic::div_mod::lemma_small_mod;
use crate::bits::{exact_log2, lemma_power_of_two_halves, log2_floor};
use crate::domain::{BuildError, Domain};
use crate::field::{
    finv, fmul, fpow, has_inverse, inv_mod, lemma_fmul_bounds, lemma_fpow_bounds, Field,
};
use crate::table::{
    bit_rev_seq, bit_reverse_permute, lemma_bit_rev_seq_identity, power_table,
    shifted_power_table,
};
use crate::worker::Worker;

verus! {

/// The forward power table of a domain: entry `i` is `g^i` for the domain
/// generator `g`.
pub open spec fn forward_powers(f: Field, d: Domain) -> Seq<u64> {
    Seq::new(
        d.size as nat,
        |i: int| fpow(f.modulus as int, d.generator as int, i as nat) as u64,
    )
}

/// The coset copy of the forward table: every entry scaled by the field's
/// fixed multiplicative generator.
pub open spec fn coset_powers(f: Field, d: Domain) -> Seq<u64> {
    Seq::new(
        d.size as nat,
        |i: int| fmul(
            f.modulus as int,
            fpow(f.modulus as int, d.generator as int, i as nat),
            f.generator as int,
        ) as u64,
    )
}

/// The inverse power table: entry `i` is `g^(-i)`, kept only for the half
/// domain.
pub open spec fn inverse_powers(f: Field, d: Domain) -> Seq<u64> {
    Seq::new(
        (d.size / 2) as nat,
        |i: int| fpow(
            f.modulus as int,
            finv(f.modulus as int, d.generator as int),
            i as nat,
        ) as u64,
    )
}

/// The coset-shifted inverse power table: every chunk's starting power is
/// multiplied once by the inverse of the field's multiplicative generator, so
/// entry `i` is `generator^(-1) * g^(-i)`.
pub open spec fn coset_inverse_powers(f: Field, d: Domain) -> Seq<u64> {
    Seq::new(
        (d.size / 2) as nat,
        |i: int| fmul(
            f.modulus as int,
            finv(f.modulus as int, f.generator as int),
            fpow(f.modulus as int, finv(f.modulus as int, d.generator as int), i as nat),
        ) as u64,
    )
}

/// Forward, coset and inverse power tables of a domain, in natural order.
pub struct PrecomputedOmegas {
    pub omegas: Vec<u64>,
    pub coset: Vec<u64>,
    pub omegas_inv: Vec<u64>,
    pub domain_size: usize,
}

/// Inverse power table of a domain, in natural order.
pub struct PrecomputedInvOmegas {
    pub omegas_inv: Vec<u64>,
    pub domain_size: usize,
}

/// Inverse power table of a domain, in bit-reversed order.
pub struct OmegasInvBitreversed {
    pub omegas: Vec<u64>,
    pub domain_size: usize,
}

/// Coset-shifted inverse power table of a domain, in bit-reversed order.
pub struct CosetOmegasInvBitreversed {
    pub omegas: Vec<u64>,
    pub domain_size: usize,
}

impl PrecomputedOmegas {
    pub open spec fn spec_domain_size(self) -> usize {
        self.domain_size
    }

    /// What a successful build holds: the three tables of `f` and `d`.
    pub open spec fn built_for(self, f: Field, d: Domain) -> bool {
        &&& self.omegas@ == forward_powers(f, d)
        &&& self.coset@ == coset_powers(f, d)
        &&& self.omegas_inv@ == inverse_powers(f, d)
        &&& self.spec_domain_size() == d.size
    }

    /// Builds the forward table of length `N`, its coset copy, and the
    /// inverse table of length `N/2`; fails exactly when the domain generator
    /// has no inverse.
    pub fn new_for_domain(f: &Field, domain: &Domain, worker: &Worker) -> (r: Result<
        Self,
        BuildError,
    >)
        requires
            f.wf(),
            domain.wf(*f),
            domain.size <= usize::MAX as u64,
        ensures
            match r {
                Ok(t) => {
                    &&& has_inverse(f.modulus as int, domain.generator as int)
                    &&& t.built_for(*f, *domain)
                    &&& t.omegas@[0] == 1
                },
                Err(e) => {
                    &&& e == BuildError::NoInverse
                    &&& !has_inverse(f.modulus as int, domain.generator as int)
                },
            },
    {
        let ghost p: int = f.modulus as int;
        let domain_size = domain.size as usize;
        let precomputation_size = domain_size / 2;

        let omega = domain.generator;
        let omega_inv = match inv_mod(f, omega) {
            Some(v) => v,
            None => {
                return Err(BuildError::NoInverse);
            },
        };

        let chunk = worker.chunk_size(domain_size);
        let omegas = power_table(f, omega, domain_size, chunk);

        let chunk_inv = worker.chunk_size(precomputation_size);
        let omegas_inv = power_table(f, omega_inv, precomputation_size, chunk_inv);

        let mut coset = omegas.clone();
        proof {
            assert(coset@ =~= omegas@);
            assert forall|i: int| 0 <= i < coset@.len() implies coset@[i] < f.modulus by {
                lemma_fpow_bounds(p, omega as int, i as nat);
            }
        }
        let mult_generator = f.generator;
        crate::table::scale_table(f, &mut coset, mult_generator);

        proof {
            assert forall|i: int| 0 <= i < domain_size implies omegas@[i] == forward_powers(
                *f,
                *domain,
            )[i] by {
                lemma_fpow_bounds(p, omega as int, i as nat);
            }
            assert(omegas@ =~= forward_powers(*f, *domain));
            assert forall|i: int| 0 <= i < domain_size implies coset@[i] == coset_powers(
                *f,
                *domain,
            )[i] by {
                lemma_fpow_bounds(p, omega as int, i as nat);
                lemma_fmul_bounds(p, fpow(p, omega as int, i as nat), mult_generator as int);
            }
            assert(coset@ =~= coset_powers(*f, *domain));
            assert forall|i: int| 0 <= i < precomputation_size implies omegas_inv@[i]
                == inverse_powers(*f, *domain)[i] by {
                lemma_fpow_bounds(p, omega_inv as int, i as nat);
            }
            assert(omegas_inv@ =~= inverse_powers(*f, *domain));
            lemma_small_mod(1nat, f.modulus as nat);
        }
        Ok(PrecomputedOmegas { omegas, coset, omegas_inv, domain_size })
    }

    /// Builds for the domain of the requested size, with a worker of the
    /// default degree.
    pub fn new_for_domain_size(f: &Field, size: usize) -> (r: Result<Self, BuildError>)
        requires
            f.wf(),
        ensures
            match r {
                Ok(t) => {
                    &&& Domain::supported_size(*f, size as u64)
                    &&& has_inverse(
                        f.modulus as int,
                        Domain::spec_for_size(*f, size as u64).generator as int,
                    )
                    &&& t.built_for(*f, Domain::spec_for_size(*f, size as u64))
                },
                Err(e) => match e {
                    BuildError::UnsupportedDomainSize => !Domain::supported_size(*f, size as u64),
                    BuildError::NoInverse => {
                        &&& Domain::supported_size(*f, size as u64)
                        &&& !has_inverse(
                            f.modulus as int,
                            Domain::spec_for_size(*f, size as u64).generator as int,
                        )
                    },
                },
            },
    {
        let domain = match Domain::new_for_size(f, size as u64) {
            Ok(d) => d,
            Err(e) => {
                return Err(e);
            },
        };
        let worker = Worker::new();
        Self::new_for_domain(f, &domain, &worker)
    }

    /// The inverse powers, in natural order.
    pub fn omegas_inv_ref(&self) -> (r: &Vec<u64>)
        ensures
            r@ == self.omegas_inv@,
    {
        &self.omegas_inv
    }

    /// The inverse power at a position.
    pub fn element_for_index(&self, index: usize) -> (r: &u64)
        requires
            index < self.omegas_inv@.len(),
        ensures
            *r == self.omegas_inv@[index as int],
    {
        &self.omegas_inv[index]
    }

    pub fn domain_size(&self) -> (r: usize)
        ensures
            r == self.spec_domain_size(),
    {
        self.domain_size
    }
}

impl PrecomputedInvOmegas {
    pub open spec fn spec_domain_size(self) -> usize {
        self.domain_size
    }

    pub open spec fn built_for(self, f: Field, d: Domain) -> bool {
        &&& self.omegas_inv@ == inverse_powers(f, d)
        &&& self.spec_domain_size() == d.size
    }

    /// Builds the inverse table of length `N/2`; fails exactly when the
    /// domain generator has no inverse.
    pub fn new_for_domain(f: &Field, domain: &Domain, worker: &Worker) -> (r: Result<
        Self,
        BuildError,
    >)
        requires
            f.wf(),
            domain.wf(*f),
            domain.size <= usize::MAX as u64,
        ensures
            match r {
                Ok(t) => {
                    &&& has_inverse(f.modulus as int, domain.generator as int)
                    &&& t.built_for(*f, *domain)
                },
                Err(e) => {
                    &&& e == BuildError::NoInverse
                    &&& !has_inverse(f.modulus as int, domain.generator as int)
                },
            },
    {
        let ghost p: int = f.modulus as int;
        let domain_size = domain.size as usize;
        let precomputation_size = domain_size / 2;

        let omega = domain.generator;
        let omega_inv = match inv_mod(f, omega) {
            Some(v) => v,
            None => {
                return Err(BuildError::NoInverse);
            },
        };

        let chunk = worker.chunk_size(precomputation_size);
        let omegas_inv = power_table(f, omega_inv, precomputation_size, chunk);
        proof {
            assert forall|i: int| 0 <= i < precomputation_size implies omegas_inv@[i]
                == inverse_powers(*f, *domain)[i] by {
                lemma_fpow_bounds(p, omega_inv as int, i as nat);
            }
            assert(omegas_inv@ =~= inverse_powers(*f, *domain));
        }
        Ok(PrecomputedInvOmegas { omegas_inv, domain_size })
    }

    /// Builds for the domain of the requested size, with a worker of the
    /// default degree.
    pub fn new_for_domain_size(f: &Field, size: usize) -> (r: Result<Self, BuildError>)
        requires
            f.wf(),
        ensures
            match r {
                Ok(t) => {
                    &&& Domain::supported_size(*f, size as u64)
                    &&& has_inverse(
                        f.modulus as int,
                        Domain::spec_for_size(*f, size as u64).generator as int,
                    )
                    &&& t.built_for(*f, Domain::spec_for_size(*f, size as u64))
                },
                Err(e) => match e {
                    BuildError::UnsupportedDomainSize => !Domain::supported_size(*f, size as u64),
                    BuildError::NoInverse => {
                        &&& Domain::supported_size(*f, size as u64)
                        &&& !has_inverse(
                            f.modulus as int,
                            Domain::spec_for_size(*f, size as u64).generator as int,
                        )
                    },
                },
            },
    {
        let domain = match Domain::new_for_size(f, size as u64) {
            Ok(d) => d,
            Err(e) => {
                return Err(e);
            },
        };
        let worker = Worker::new();
        Self::new_for_domain(f, &domain, &worker)
    }

    /// The inverse powers, in natural order.
    pub fn omegas_inv_ref(&self) -> (r: &Vec<u64>)
        ensures
            r@ == self.omegas_inv@,
    {
        &self.omegas_inv
    }

    pub fn domain_size(&self) -> (r: usize)
        ensures
            r == self.spec_domain_size(),
    {
        self.domain_size
    }
}

impl OmegasInvBitreversed {
    pub open spec fn spec_domain_size(self) -> usize {
        self.domain_size
    }

    pub open spec fn built_for(self, f: Field, d: Domain) -> bool {
        &&& self.omegas@ == bit_rev_seq(inverse_powers(f, d), exact_log2((d.size / 2) as nat))
        &&& self.spec_domain_size() == d.size
    }

    /// Builds the inverse table of length `N/2` and permutes it into
    /// bit-reversed order; fails exactly when the domain generator has no
    /// inverse.
    pub fn new_for_domain(f: &Field, domain: &Domain, worker: &Worker) -> (r: Result<
        Self,
        BuildError,
    >)
        requires
            f.wf(),
            domain.wf(*f),
            domain.size <= usize::MAX as u64,
        ensures
            match r {
                Ok(t) => {
                    &&& has_inverse(f.modulus as int, domain.generator as int)
                    &&& t.built_for(*f, *domain)
                },
                Err(e) => {
                    &&& e == BuildError::NoInverse
                    &&& !has_inverse(f.modulus as int, domain.generator as int)
                },
            },
    {
        let ghost p: int = f.modulus as int;
        let domain_size = domain.size as usize;

        let omega = match inv_mod(f, domain.generator) {
            Some(v) => v,
            None => {
                return Err(BuildError::NoInverse);
            },
        };
        let precomputation_size = domain_size / 2;

        proof {
            lemma_power_of_two_halves(domain.size as nat);
        }
        let log_n = log2_floor(precomputation_size as u64);

        let mut omegas = power_table(f, omega, precomputation_size, worker.chunk_size(
            precomputation_size,
        ));
        proof {
            assert forall|i: int| 0 <= i < precomputation_size implies omegas@[i]
                == inverse_powers(*f, *domain)[i] by {
                lemma_fpow_bounds(p, omega as int, i as nat);
            }
            assert(omegas@ =~= inverse_powers(*f, *domain));
        }

        if omegas.len() > 2 {
            bit_reverse_permute(&mut omegas, log_n);
        } else {
            proof {
                lemma_log_at_most_one(precomputation_size as nat, log_n as nat);
                lemma_bit_rev_seq_identity(omegas@, log_n as nat);
            }
        }

        Ok(OmegasInvBitreversed { omegas, domain_size })
    }

    /// Builds for the domain of the requested size, with a worker of the
    /// default degree.
    pub fn new_for_domain_size(f: &Field, size: usize) -> (r: Result<Self, BuildError>)
        requires
            f.wf(),
        ensures
            match r {
                Ok(t) => {
                    &&& Domain::supported_size(*f, size as u64)
                    &&& has_inverse(
                        f.modulus as int,
                        Domain::spec_for_size(*f, size as u64).generator as int,
                    )
                    &&& t.built_for(*f, Domain::spec_for_size(*f, size as u64))
                },
                Err(e) => match e {
                    BuildError::UnsupportedDomainSize => !Domain::supported_size(*f, size as u64),
                    BuildError::NoInverse => {
                        &&& Domain::supported_size(*f, size as u64)
                        &&& !has_inverse(
                            f.modulus as int,
                            Domain::spec_for_size(*f, size as u64).generator as int,
                        )
                    },
                },
            },
    {
        let domain = match Domain::new_for_size(f, size as u64) {
            Ok(d) => d,
            Err(e) => {
                return Err(e);
            },
        };
        let worker = Worker::new();
        Self::new_for_domain(f, &domain, &worker)
    }

    /// The inverse powers, in bit-reversed order.
    pub fn omegas_inv_bitreversed(&self) -> (r: &Vec<u64>)
        ensures
            r@ == self.omegas@,
    {
        &self.omegas
    }

    /// The same table, under the name butterfly-network transforms read it
    /// through.
    pub fn bit_reversed_omegas(&self) -> (r: &Vec<u64>)
        ensures
            r@ == self.omegas@,
    {
        &self.omegas
    }

    pub fn domain_size(&self) -> (r: usize)
        ensures
            r == self.spec_domain_size(),
    {
        self.domain_size
    }
}

impl CosetOmegasInvBitreversed {
    pub open spec fn spec_domain_size(self) -> usize {
        self.domain_size
    }

    pub open spec fn built_for(self, f: Field, d: Domain) -> bool {
        &&& self.omegas@ == bit_rev_seq(
            coset_inverse_powers(f, d),
            exact_log2((d.size / 2) as nat),
        )
        &&& self.spec_domain_size() == d.size
    }

    /// Builds the coset-shifted inverse table of length `N/2` and permutes it
    /// into bit-reversed order; fails exactly when the domain generator or the
    /// field's multiplicative generator has no inverse.
    pub fn new_for_domain(f: &Field, domain: &Domain, worker: &Worker) -> (r: Result<
        Self,
        BuildError,
    >)
        requires
            f.wf(),
            domain.wf(*f),
            domain.size <= usize::MAX as u64,
        ensures
            match r {
                Ok(t) => {
                    &&& has_inverse(f.modulus as int, domain.generator as int)
                    &&& has_inverse(f.modulus as int, f.generator as int)
                    &&& t.built_for(*f, *domain)
                },
                Err(e) => {
                    &&& e == BuildError::NoInverse
                    &&& {
                        ||| !has_inverse(f.modulus as int, domain.generator as int)
                        ||| !has_inverse(f.modulus as int, f.generator as int)
                    }
                },
            },
    {
        let ghost p: int = f.modulus as int;
        let domain_size = domain.size as usize;

        let omega = match inv_mod(f, domain.generator) {
            Some(v) => v,
            None => {
                return Err(BuildError::NoInverse);
            },
        };
        let precomputation_size = domain_size / 2;

        proof {
            lemma_power_of_two_halves(domain.size as nat);
        }
        let log_n = log2_floor(precomputation_size as u64);

        let geninv = match inv_mod(f, f.generator) {
            Some(v) => v,
            None => {
                return Err(BuildError::NoInverse);
            },
        };

        let mut omegas = shifted_power_table(f, omega, geninv, precomputation_size, worker
            .chunk_size(precomputation_size));
        proof {
            assert forall|i: int| 0 <= i < precomputation_size implies omegas@[i]
                == coset_inverse_powers(*f, *domain)[i] by {
                lemma_fpow_bounds(p, omega as int, i as nat);
                lemma_fmul_bounds(p, geninv as int, fpow(p, omega as int, i as nat));
            }
            assert(omegas@ =~= coset_inverse_powers(*f, *domain));
        }

        if omegas.len() > 2 {
            bit_reverse_permute(&mut omegas, log_n);
        } else {
            proof {
                lemma_log_at_most_one(precomputation_size as nat, log_n as nat);
                lemma_bit_rev_seq_identity(omegas@, log_n as nat);
            }
        }

        Ok(CosetOmegasInvBitreversed { omegas, domain_size })
    }

    /// Builds for the domain of the requested size, with a worker of the
    /// default degree.
    pub fn new_for_domain_size(f: &Field, size: usize) -> (r: Result<Self, BuildError>)
        requires
            f.wf(),
        ensures
            match r {
                Ok(t) => {
                    &&& Domain::supported_size(*f, size as u64)
                    &&& has_inverse(
                        f.modulus as int,
                        Domain::spec_for_size(*f, size as u64).generator as int,
                    )
                    &&& has_inverse(f.modulus as int, f.generator as int)
                    &&& t.built_for(*f, Domain::spec_for_size(*f, size as u64))
                },
                Err(e) => match e {
                    BuildError::UnsupportedDomainSize => !Domain::supported_size(*f, size as u64),
                    BuildError::NoInverse => {
                        &&& Domain::supported_size(*f, size as u64)
                        &&& {
                            ||| !has_inverse(
                                f.modulus as int,
                                Domain::spec_for_size(*f, size as u64).generator as int,
                            )
                            ||| !has_inverse(f.modulus as int, f.generator as int)
                        }
                    },
                },
            },
    {
        let domain = match Domain::new_for_size(f, size as u64) {
            Ok(d) => d,
            Err(e) => {
                return Err(e);
            },
        };
        let worker = Worker::new();
        Self::new_for_domain(f, &domain, &worker)
    }

    /// The coset-shifted inverse powers, in bit-reversed order.
    pub fn omegas_inv_bitreversed(&self) -> (r: &Vec<u64>)
        ensures
            r@ == self.omegas@,
    {
        &self.omegas
    }

    pub fn domain_size(&self) -> (r: usize)
        ensures
            r == self.spec_domain_size(),
    {
        self.domain_size
    }
}

/// A two-power that is at most 2 has logarithm at most 1.
proof fn lemma_log_at_most_one(n: nat, l: nat)
    requires
        pow2(l) == n,
        n <= 2,
    ensures
        l <= 1,
{
    if l >= 2 {
        if l > 2 {
            vstd::arithmetic::power2::lemma_pow2_strictly_increases(2, l);
        }
        assert(pow2(2) == 4) by {
            vstd::arithmetic::power2::lemma2_to64();
        }
    }
}

/// The coset copy of the forward table holds, entry by entry, the forward
/// entry multiplied by the field's fixed multiplicative generator.
pub proof fn lemma_coset_is_scaled_forward(f: Field, d: Domain, i: int)
    requires
        f.wf(),
        0 <= i < d.size,
    ensures
        coset_powers(f, d)[i] == fmul(
            f.modulus as int,
            forward_powers(f, d)[i] as int,
            f.generator as int,
        ) as u64,
{
    lemma_fpow_bounds(f.modulus as int, d.generator as int, i as nat);
}

/// Building twice for the same field and domain yields identical tables,
/// whatever chunk size or worker count each build used.
pub proof fn lemma_precomputed_omegas_deterministic(
    f: Field,
    d: Domain,
    a: PrecomputedOmegas,
    b: PrecomputedOmegas,
)
    requires
        a.built_for(f, d),
        b.built_for(f, d),
    ensures
        a.omegas@ == b.omegas@,
        a.coset@ == b.coset@,
        a.omegas_inv@ == b.omegas_inv@,
        a.spec_domain_size() == b.spec_domain_size(),
{
}

/// Building twice for the same field and domain yields identical tables,
/// whatever chunk size or worker count each build used.
pub proof fn lemma_precomputed_inv_omegas_deterministic(
    f: Field,
    d: Domain,
    a: PrecomputedInvOmegas,
    b: PrecomputedInvOmegas,
)
    requires
        a.built_for(f, d),
        b.built_for(f, d),
    ensures
        a.omegas_inv@ == b.omegas_inv@,
        a.spec_domain_size() == b.spec_domain_size(),
{
}

/// Building twice for the same field and domain yields identical tables,
/// whatever chunk size or worker count each build used.
pub proof fn lemma_omegas_inv_bitreversed_deterministic(
    f: Field,
    d: Domain,
    a: OmegasInvBitreversed,
    b: OmegasInvBitreversed,
)
    requires
        a.built_for(f, d),
        b.built_for(f, d),
    ensures
        a.omegas@ == b.omegas@,
        a.spec_domain_size() == b.spec_domain_size(),
{
}

/// Building twice for the same field and domain yields identical tables,
/// whatever chunk size or worker count each build used.
pub proof fn lemma_coset_omegas_inv_bitreversed_deterministic(
    f: Field,
    d: Domain,
    a: CosetOmegasInvBitreversed,
    b: CosetOmegasInvBitreversed,
)
    requires
        a.built_for(f, d),
        b.built_for(f, d),
    ensures
        a.omegas@ == b.omegas@,
        a.spec_domain_size() == b.spec_domain_size(),
{
}

} // verus!
