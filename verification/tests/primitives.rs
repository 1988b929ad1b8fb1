use fri_precompute::bits::{bitreverse, check_power_of_two, log2_floor};
use fri_precompute::field::{inv_mod, mul_mod, pow_mod, Field};
use fri_precompute::table::{bit_reverse_permute, power_table, shifted_power_table};
use fri_precompute::worker::Worker;

fn f17() -> Field {
    Field { modulus: 17, generator: 3, root_of_unity: 3, two_adicity: 4 }
}

#[test]
fn bit_reversal_of_four_entries() {
    // [a, b, c, d] -> [a, c, b, d]: indices 1 and 2 swap, 0 and 3 stay
    let mut t: Vec<u64> = vec![10, 20, 30, 40];
    bit_reverse_permute(&mut t, 2);
    assert_eq!(t, vec![10, 30, 20, 40]);
}

#[test]
fn bit_reversal_is_involution() {
    let original: Vec<u64> = vec![5, 11, 2, 7, 3, 13, 1, 9];
    let mut t = original.clone();
    bit_reverse_permute(&mut t, 3);
    assert_eq!(t, vec![5, 3, 2, 1, 11, 13, 7, 9]);
    bit_reverse_permute(&mut t, 3);
    assert_eq!(t, original);
}

#[test]
fn bit_reversed_table_reads_reversed_indices() {
    let natural: Vec<u64> = vec![4, 8, 15, 16, 23, 42, 108, 7];
    let mut reversed = natural.clone();
    bit_reverse_permute(&mut reversed, 3);
    for k in 0..8 {
        assert_eq!(reversed[k], natural[bitreverse(k, 3)]);
    }
}

#[test]
fn bit_reversal_leaves_short_tables_unchanged() {
    let mut one: Vec<u64> = vec![9];
    bit_reverse_permute(&mut one, 0);
    assert_eq!(one, vec![9]);
    let mut two: Vec<u64> = vec![9, 4];
    bit_reverse_permute(&mut two, 1);
    assert_eq!(two, vec![9, 4]);
}

#[test]
fn bitreverse_small_values() {
    assert_eq!(bitreverse(0, 3), 0);
    assert_eq!(bitreverse(1, 3), 4);
    assert_eq!(bitreverse(6, 3), 3);
    assert_eq!(bitreverse(7, 3), 7);
    assert_eq!(bitreverse(3, 2), 3);
    assert_eq!(bitreverse(1, 2), 2);
}

#[test]
fn power_table_edge_lengths() {
    let f = f17();
    assert_eq!(power_table(&f, 2, 0, 1), Vec::<u64>::new());
    assert_eq!(power_table(&f, 2, 1, 4), vec![1]);
    // the additive identity as base: 0^0 == 1 and 0^k == 0 afterwards
    assert_eq!(power_table(&f, 0, 3, 1), vec![1, 0, 0]);
}

#[test]
fn power_table_independent_of_chunk_size() {
    let f = f17();
    let expected: Vec<u64> = vec![1, 2, 4, 8, 16, 15, 13, 9];
    for chunk in 1..=9 {
        assert_eq!(power_table(&f, 2, 8, chunk), expected);
    }
}

#[test]
fn shifted_power_table_applies_shift_once_per_entry() {
    let f = f17();
    // 6 * 9^i mod 17
    assert_eq!(shifted_power_table(&f, 9, 6, 4, 2), vec![6, 3, 10, 5]);
}

#[test]
fn modular_primitives() {
    let f = f17();
    assert_eq!(mul_mod(&f, 16, 16), 1);
    assert_eq!(mul_mod(&f, 0, 12), 0);
    assert_eq!(pow_mod(&f, 2, 0), 1);
    assert_eq!(pow_mod(&f, 2, 8), 1);
    assert_eq!(pow_mod(&f, 3, 14), 2);
    assert_eq!(inv_mod(&f, 2), Some(9));
    assert_eq!(inv_mod(&f, 3), Some(6));
    // the additive identity has no inverse
    assert_eq!(inv_mod(&f, 0), None);
    let f15 = Field { modulus: 15, generator: 2, root_of_unity: 2, two_adicity: 2 };
    assert_eq!(inv_mod(&f15, 5), None);
    assert_eq!(inv_mod(&f15, 2), Some(8));
}

#[test]
fn power_of_two_recognition() {
    assert!(check_power_of_two(1));
    assert!(check_power_of_two(2));
    assert!(check_power_of_two(64));
    assert!(!check_power_of_two(0));
    assert!(!check_power_of_two(12));
    assert!(!check_power_of_two(63));
}

#[test]
fn log2_floor_values() {
    assert_eq!(log2_floor(1), 0);
    assert_eq!(log2_floor(2), 1);
    assert_eq!(log2_floor(8), 3);
    assert_eq!(log2_floor(9), 3);
    assert_eq!(log2_floor(1024), 10);
}

#[test]
fn worker_chunk_sizes() {
    let w = Worker::with_cpus(4);
    assert_eq!(w.chunk_size(2), 1);
    assert_eq!(w.chunk_size(4), 1);
    assert_eq!(w.chunk_size(8), 2);
    assert_eq!(w.chunk_size(10), 2);
    assert_eq!(Worker::new().chunk_size(100), 100);
}
