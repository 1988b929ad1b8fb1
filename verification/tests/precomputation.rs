use fri_precompute::domain::{BuildError, Domain};
use fri_precompute::field::Field;
use fri_precompute::precomputation::{
    CosetOmegasInvBitreversed, OmegasInvBitreversed, PrecomputedInvOmegas, PrecomputedOmegas,
};
use fri_precompute::worker::Worker;

/// The integers modulo 17: multiplicative generator 3, which also has full
/// two-power order 16 = 2^4.
fn f17() -> Field {
    Field { modulus: 17, generator: 3, root_of_unity: 3, two_adicity: 4 }
}

/// A composite modulus, under which some residues have no inverse.
fn f15() -> Field {
    Field { modulus: 15, generator: 2, root_of_unity: 2, two_adicity: 2 }
}

#[test]
fn forward_table_mod_17() {
    let f = f17();
    let d = Domain { size: 8, generator: 2 };
    let t = PrecomputedOmegas::new_for_domain(&f, &d, &Worker::new()).unwrap();
    assert_eq!(t.omegas, vec![1, 2, 4, 8, 16, 15, 13, 9]);
    assert_eq!(t.omegas[0], 1);
    assert_eq!(t.domain_size(), 8);
}

#[test]
fn inverse_table_mod_17() {
    let f = f17();
    let d = Domain { size: 8, generator: 2 };
    let t = PrecomputedOmegas::new_for_domain(&f, &d, &Worker::new()).unwrap();
    // inverse of 2 mod 17 is 9; the table keeps only N/2 entries
    assert_eq!(t.omegas_inv, vec![1, 9, 13, 15]);
}

#[test]
fn coset_copy_is_scaled_by_generator() {
    let f = f17();
    let d = Domain { size: 8, generator: 2 };
    let t = PrecomputedOmegas::new_for_domain(&f, &d, &Worker::new()).unwrap();
    for i in 0..8 {
        assert_eq!(t.coset[i], (t.omegas[i] * 3) % 17);
    }
    assert_eq!(t.coset, vec![3, 6, 12, 7, 14, 11, 5, 10]);
}

#[test]
fn inv_omegas_standalone_build() {
    let f = f17();
    let d = Domain { size: 8, generator: 2 };
    let t = PrecomputedInvOmegas::new_for_domain(&f, &d, &Worker::new()).unwrap();
    assert_eq!(t.omegas_inv, vec![1, 9, 13, 15]);
    assert_eq!(t.omegas_inv_ref(), &vec![1, 9, 13, 15]);
    assert_eq!(t.domain_size(), 8);
}

#[test]
fn bitreversed_inverse_table() {
    let f = f17();
    let d = Domain { size: 8, generator: 2 };
    let t = OmegasInvBitreversed::new_for_domain(&f, &d, &Worker::new()).unwrap();
    // natural order is [1, 9, 13, 15]; indices 1 and 2 swap
    assert_eq!(t.omegas, vec![1, 13, 9, 15]);
    assert_eq!(t.omegas_inv_bitreversed(), &vec![1, 13, 9, 15]);
    assert_eq!(t.bit_reversed_omegas(), &vec![1, 13, 9, 15]);
    assert_eq!(t.domain_size(), 8);
}

#[test]
fn coset_bitreversed_inverse_table() {
    let f = f17();
    let d = Domain { size: 8, generator: 2 };
    let t = CosetOmegasInvBitreversed::new_for_domain(&f, &d, &Worker::new()).unwrap();
    // inverse of the multiplicative generator 3 is 6; natural order is
    // [6, 3, 10, 5], then indices 1 and 2 swap
    assert_eq!(t.omegas, vec![6, 10, 3, 5]);
    assert_eq!(t.omegas_inv_bitreversed(), &vec![6, 10, 3, 5]);
    assert_eq!(t.domain_size(), 8);
}

#[test]
fn element_for_index_reads_inverse_table() {
    let f = f17();
    let d = Domain { size: 8, generator: 2 };
    let t = PrecomputedOmegas::new_for_domain(&f, &d, &Worker::new()).unwrap();
    assert_eq!(*t.element_for_index(0), 1);
    assert_eq!(*t.element_for_index(2), 13);
    assert_eq!(t.omegas_inv_ref(), &vec![1, 9, 13, 15]);
}

#[test]
fn build_is_deterministic_across_workers() {
    let f = f17();
    let d = Domain { size: 8, generator: 2 };
    let a = PrecomputedOmegas::new_for_domain(&f, &d, &Worker::with_cpus(1)).unwrap();
    let b = PrecomputedOmegas::new_for_domain(&f, &d, &Worker::with_cpus(3)).unwrap();
    let c = PrecomputedOmegas::new_for_domain(&f, &d, &Worker::with_cpus(100)).unwrap();
    assert_eq!(a.omegas, b.omegas);
    assert_eq!(b.omegas, c.omegas);
    assert_eq!(a.coset, b.coset);
    assert_eq!(b.coset, c.coset);
    assert_eq!(a.omegas_inv, b.omegas_inv);
    assert_eq!(b.omegas_inv, c.omegas_inv);
}

#[test]
fn bitreversed_build_is_deterministic_across_workers() {
    let f = f17();
    let d = Domain { size: 16, generator: 3 };
    let a = OmegasInvBitreversed::new_for_domain(&f, &d, &Worker::with_cpus(1)).unwrap();
    let b = OmegasInvBitreversed::new_for_domain(&f, &d, &Worker::with_cpus(5)).unwrap();
    assert_eq!(a.omegas, b.omegas);
    // inverse of 3 is 6; powers of 6 are [1, 6, 2, 12, 4, 7, 8, 14], read in
    // bit-reversed order
    assert_eq!(a.omegas, vec![1, 4, 2, 8, 6, 7, 12, 14]);
}

#[test]
fn domain_of_non_power_of_two_size_fails() {
    let f = f17();
    assert_eq!(Domain::new_for_size(&f, 12), Err(BuildError::UnsupportedDomainSize));
    assert_eq!(Domain::new_for_size(&f, 0), Err(BuildError::UnsupportedDomainSize));
    assert_eq!(Domain::new_for_size(&f, 7), Err(BuildError::UnsupportedDomainSize));
}

#[test]
fn domain_too_large_for_field_fails() {
    let f = f17();
    // 32 = 2^5 exceeds the two-adicity 4 of the field
    assert_eq!(Domain::new_for_size(&f, 32), Err(BuildError::UnsupportedDomainSize));
}

#[test]
fn domain_generators_by_size() {
    let f = f17();
    assert_eq!(Domain::new_for_size(&f, 16).unwrap().generator, 3);
    assert_eq!(Domain::new_for_size(&f, 8).unwrap().generator, 9);
    assert_eq!(Domain::new_for_size(&f, 4).unwrap().generator, 13);
    assert_eq!(Domain::new_for_size(&f, 2).unwrap().generator, 16);
}

#[test]
fn build_by_size_rejects_bad_sizes() {
    let f = f17();
    assert!(matches!(
        PrecomputedOmegas::new_for_domain_size(&f, 12),
        Err(BuildError::UnsupportedDomainSize)
    ));
    assert!(matches!(
        PrecomputedInvOmegas::new_for_domain_size(&f, 3),
        Err(BuildError::UnsupportedDomainSize)
    ));
    assert!(matches!(
        OmegasInvBitreversed::new_for_domain_size(&f, 0),
        Err(BuildError::UnsupportedDomainSize)
    ));
    assert!(matches!(
        CosetOmegasInvBitreversed::new_for_domain_size(&f, 24),
        Err(BuildError::UnsupportedDomainSize)
    ));
}

#[test]
fn build_by_size_uses_field_root_of_unity() {
    let f = f17();
    // the domain of size 8 gets generator 9, whose inverse is 2
    let t = PrecomputedInvOmegas::new_for_domain_size(&f, 8).unwrap();
    assert_eq!(t.omegas_inv, vec![1, 2, 4, 8]);
    let fwd = PrecomputedOmegas::new_for_domain_size(&f, 8).unwrap();
    assert_eq!(fwd.omegas, vec![1, 9, 13, 15, 16, 8, 4, 2]);
    assert_eq!(fwd.domain_size(), 8);
}

#[test]
fn generator_without_inverse_fails() {
    let f = f15();
    // 5 has no inverse modulo 15
    let d = Domain { size: 4, generator: 5 };
    let w = Worker::new();
    assert!(matches!(
        PrecomputedOmegas::new_for_domain(&f, &d, &w),
        Err(BuildError::NoInverse)
    ));
    assert!(matches!(
        PrecomputedInvOmegas::new_for_domain(&f, &d, &w),
        Err(BuildError::NoInverse)
    ));
    assert!(matches!(
        OmegasInvBitreversed::new_for_domain(&f, &d, &w),
        Err(BuildError::NoInverse)
    ));
}

#[test]
fn coset_build_fails_when_field_generator_has_no_inverse() {
    // the field generator 5 has no inverse modulo 15, though the domain
    // generator 2 does
    let f = Field { modulus: 15, generator: 5, root_of_unity: 2, two_adicity: 2 };
    let d = Domain { size: 4, generator: 2 };
    assert!(matches!(
        CosetOmegasInvBitreversed::new_for_domain(&f, &d, &Worker::new()),
        Err(BuildError::NoInverse)
    ));
}

#[test]
fn smallest_domain_gives_single_entry_inverse_table() {
    let f = f17();
    // 16 is the element of order 2
    let d = Domain { size: 2, generator: 16 };
    let t = PrecomputedInvOmegas::new_for_domain(&f, &d, &Worker::new()).unwrap();
    assert_eq!(t.omegas_inv, vec![1]);
    let tb = OmegasInvBitreversed::new_for_domain(&f, &d, &Worker::new()).unwrap();
    assert_eq!(tb.omegas, vec![1]);
}
