//! Evaluation domains: multiplicative subgroups of two-power order, described
//! by their size and a primitive root of unity of that order.

use vstd::prelude::*;
use vstd::arithmetic::power2::pow2;
use crate::bits::{check_power_of_two, exact_log2, is_power_of_two, lemma_pow2_exact_log2, log2_floor};
use crate::field::{fpow, pow_mod, Field};

verus! {

/// Why a table could not be built.
#[derive(Clone, Copy, Debug, PartialEq, Eq, Structural)]
pub enum BuildError {
    /// The requested domain size is not a supported power of two.
    UnsupportedDomainSize,
    /// A required multiplicative inverse does not exist.
    NoInverse,
}

/// An evaluation domain of two-power size, with a generator element intended
/// to be a primitive root of unity of that order.
#[derive(Clone, Copy, Debug, PartialEq, Eq, Structural)]
pub struct Domain {
    pub size: u64,
    pub generator: u64,
}

impl Domain {
    pub open spec fn wf(self, f: Field) -> bool {
        &&& is_power_of_two(self.size as nat)
        &&& self.size >= 2
        &&& self.generator < f.modulus
    }

    /// Whether the field supports a domain of this size: a power of two, at
    /// least 2, and no larger than the order of the field's root of unity.
    pub open spec fn supported_size(f: Field, size: u64) -> bool {
        &&& is_power_of_two(size as nat)
        &&& size >= 2
        &&& exact_log2(size as nat) <= f.two_adicity
    }

    /// The generator a supported size receives: the field's root of unity
    /// raised to `2^(two_adicity - log2(size))`.
    pub open spec fn generator_for_size(f: Field, size: u64) -> int {
        fpow(
            f.modulus as int,
            f.root_of_unity as int,
            pow2((f.two_adicity - exact_log2(size as nat)) as nat),
        )
    }

    /// The domain `new_for_size` builds for a supported size.
    pub open spec fn spec_for_size(f: Field, size: u64) -> Domain {
        Domain { size, generator: Self::generator_for_size(f, size) as u64 }
    }

    /// Builds the domain of the requested size, failing exactly on sizes the
    /// field does not support.
    pub fn new_for_size(f: &Field, size: u64) -> (r: Result<Domain, BuildError>)
        requires
            f.wf(),
        ensures
            match r {
                Ok(d) => {
                    &&& Self::supported_size(*f, size)
                    &&& d == Self::spec_for_size(*f, size)
                    &&& d.wf(*f)
                },
                Err(e) => {
                    &&& e == BuildError::UnsupportedDomainSize
                    &&& !Self::supported_size(*f, size)
                },
            },
    {
        if size < 2 || !check_power_of_two(size) {
            return Err(BuildError::UnsupportedDomainSize);
        }
        let log = log2_floor(size);
        if log > f.two_adicity {
            return Err(BuildError::UnsupportedDomainSize);
        }
        let exponent = pow2_u64(f.two_adicity - log);
        let generator = pow_mod(f, f.root_of_unity, exponent);
        proof {
            lemma_pow2_exact_log2(size as nat);
        }
        Ok(Domain { size, generator })
    }
}

/// `2^e` as a machine word.
#[verifier::loop_isolation(false)]
pub fn pow2_u64(e: u32) -> (r: u64)
    requires
        e < 64,
    ensures
        r == pow2(e as nat),
{
    let mut r: u64 = 1;
    let mut i: u32 = 0;
    proof {
        vstd::arithmetic::power2::lemma2_to64();
    }
    while i < e
        invariant
            i <= e,
            e < 64,
            r == pow2(i as nat),
        decreases e - i,
    {
        proof {
            vstd::arithmetic::power2::lemma2_to64_rest();
            if ((i + 1) as nat) < 63 {
                vstd::arithmetic::power2::lemma_pow2_strictly_increases((i + 1) as nat, 63);
            }
            vstd::arithmetic::power2::lemma_pow2_unfold((i + 1) as nat);
        }
        r = r * 2;
        i = i + 1;
    }
    r
}

} // verus!
