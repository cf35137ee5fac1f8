//! Multiplication with precomputed tables.

use maya::group::Field;
use maya::p256::curve::{Affine, Projective};
use maya::p256::field::Fr;
use maya::p256::fixed_base::{to_bits_le, FixedBaseTable};

#[test]
fn fixed_base_matches_multiplication() {
    let base = Projective::generator().mul_scalar(Fr::from_u64(0xdead_beef_0123));
    let scalars = [
        Fr::zero(),
        Fr::one(),
        Fr::from_u64(255),
        Fr::from_u64(u64::MAX),
        Fr::one().negate(),
        Fr::from_wide_bytes(&[0xa7; 64]),
    ];
    for window in [1usize, 3, 4, 8] {
        let table = FixedBaseTable::create(&base, window);
        for s in &scalars {
            assert_eq!(table.mul(s), base.mul_scalar(*s));
        }
    }
}

#[test]
fn fixed_base_table_sizes() {
    let table = FixedBaseTable::create(&Projective::generator(), 4);
    assert_eq!(table.table_size_points(), 64 * 15);
    assert_eq!(table.table_size_bytes(), 64 * 15 * std::mem::size_of::<Affine>());
    let table = FixedBaseTable::create(&Projective::generator(), 5);
    assert_eq!(table.table_size_points(), 52 * 31);
}

#[test]
fn bits_of_scalars() {
    let bits = to_bits_le(&Fr::from_u64(0b1011));
    assert_eq!(bits.len(), 256);
    assert_eq!(&bits[..5], &[true, true, false, true, false]);
    assert!(bits[4..].iter().all(|b| !b));
    // The order is odd and has its highest bit set.
    let bits = to_bits_le(&Fr::one().negate());
    assert!(!bits[0]);
    assert!(bits[255]);
}
