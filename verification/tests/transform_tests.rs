//! The transform on small sizes and fixed values.

use nsc_core::modulus::Modulus;
use nsc_core::ntt::NttTables;
use nsc_core::ring::Poly;

const Q: u64 = 1_073_750_017;

#[test]
fn tables_report_their_parameters() {
    let q = Modulus::new(Q);
    let tables = NttTables::new(8, q);
    assert_eq!(tables.n(), 8);
    assert_eq!(tables.modulus(), q);
}

#[test]
fn degree_one_and_two_round_trip() {
    let q = Modulus::new(17);
    for n in [1usize, 2, 4, 8] {
        let tables = NttTables::new(n, q);
        let input: Vec<u64> = (0..n as u64).map(|i| (3 * i + 1) % 17).collect();
        let mut values = input.clone();
        tables.forward(&mut values);
        tables.inverse(&mut values);
        assert_eq!(values, input, "n = {n}");
    }
}

#[test]
fn transform_of_a_constant_is_constant() {
    // A constant evaluates to itself at every point.
    let q = Modulus::new(Q);
    let tables = NttTables::new(16, q);
    let mut values = vec![0u64; 16];
    values[0] = 42;
    tables.forward(&mut values);
    assert!(values.iter().all(|&v| v == 42));
}

#[test]
fn product_by_hand_through_the_transform() {
    let q = Modulus::new(17);
    let tables = NttTables::new(4, q);
    let a = Poly::from_coeffs(vec![1, 2, 3, 4]);
    let b = Poly::from_coeffs(vec![5, 6, 0, 0]);
    assert_eq!(tables.mul(&a, &b).coeffs, vec![15, 16, 10, 4]);
}

#[test]
fn unreduced_coefficients_multiply_as_their_residues() {
    // Coefficients need not lie below q: the product is that of the residues.
    let q = Modulus::new(17);
    let tables = NttTables::new(4, q);
    let a = Poly::from_coeffs(vec![1 + 17, 2 + 34, 3, 4 + 170]);
    let b = Poly::from_coeffs(vec![5, 6 + 17, 17, 0]);
    assert_eq!(tables.mul(&a, &b).coeffs, vec![15, 16, 10, 4]);
    assert_eq!(tables.mul(&a, &b), a.mul_schoolbook(&b, &q));
    let big = u64::MAX - 16;
    let c = Poly::from_coeffs(vec![big, 1, 0, 0]);
    let d = Poly::from_coeffs(vec![2, 0, 0, big]);
    assert_eq!(tables.mul(&c, &d), c.mul_schoolbook(&d, &q));
}

#[test]
fn tables_are_not_built_without_the_right_roots() {
    // 97 - 1 = 96 is not a multiple of 2·64, so no negacyclic transform exists.
    assert!(NttTables::try_new(64, Modulus::new(97)).is_none());
    // 12 is not a power of two.
    assert!(NttTables::try_new(12, Modulus::new(Q)).is_none());
    // 2·8 divides 17 - 1, and 3 gives a primitive 16th root of unity.
    let tables = NttTables::try_new(8, Modulus::new(17)).expect("tables for N = 8, q = 17");
    assert_eq!(tables.n(), 8);
    assert_eq!(tables.modulus(), Modulus::new(17));
}

#[test]
fn round_trip_of_unreduced_entries_gives_their_residues() {
    let q = Modulus::new(17);
    let tables = NttTables::new(4, q);
    let input: Vec<u64> = vec![18, 35, 3, 174];
    let mut values = input.clone();
    tables.forward(&mut values);
    tables.inverse(&mut values);
    let residues: Vec<u64> = input.iter().map(|x| x % 17).collect();
    assert_eq!(values, residues);
}
