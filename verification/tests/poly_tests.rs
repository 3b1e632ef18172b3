//! Exact values of the ring operations, and their edge cases.

use nsc_core::modulus::Modulus;
use nsc_core::ring::{Poly, PolyI128};

fn q() -> Modulus {
    Modulus::new(17)
}

#[test]
fn coefficient_wise_operations() {
    let q = q();
    let a = Poly::from_coeffs(vec![1, 16, 5, 0]);
    let b = Poly::from_coeffs(vec![16, 16, 3, 0]);
    assert_eq!(a.add(&b, &q).coeffs, vec![0, 15, 8, 0]);
    assert_eq!(a.sub(&b, &q).coeffs, vec![2, 0, 2, 0]);
    assert_eq!(a.neg(&q).coeffs, vec![16, 1, 12, 0]);
    assert_eq!(a.scalar_mul(3, &q).coeffs, vec![3, 14, 15, 0]);
    assert_eq!(Poly::zero(3).coeffs, vec![0, 0, 0]);
    assert_eq!(a.len(), 4);
    assert!(!a.is_empty());
    assert!(Poly::zero(0).is_empty());
}

#[test]
fn schoolbook_product_by_hand() {
    // (1 + 2X + 3X^2 + 4X^3)(5 + 6X) in Z_17[X]/(X^4 + 1):
    // 5 + 16X + 27X^2 + 38X^3 + 24X^4, and X^4 = -1.
    let q = q();
    let a = Poly::from_coeffs(vec![1, 2, 3, 4]);
    let b = Poly::from_coeffs(vec![5, 6, 0, 0]);
    let expected = vec![(5 + 17 * 2 - 24) % 17, 16, 27 % 17, 38 % 17];
    assert_eq!(a.mul_schoolbook(&b, &q).coeffs, expected);
}

#[test]
fn multiplication_distributes_on_a_fixed_example() {
    let q = q();
    let a = Poly::from_coeffs(vec![3, 1, 4, 1]);
    let b = Poly::from_coeffs(vec![5, 9, 2, 6]);
    let c = Poly::from_coeffs(vec![16, 0, 8, 3]);
    assert_eq!(
        a.mul_schoolbook(&b.add(&c, &q), &q),
        a.mul_schoolbook(&b, &q).add(&a.mul_schoolbook(&c, &q), &q)
    );
    assert_eq!(a.mul_schoolbook(&b, &q), b.mul_schoolbook(&a, &q));
}

#[test]
fn exact_product_and_norm() {
    let a = PolyI128 { coeffs: vec![1, -2] };
    let b = PolyI128 { coeffs: vec![3, 4] };
    // (1 - 2X)(3 + 4X) = 3 - 2X - 8X^2, and X^2 = -1: 11 - 2X
    assert_eq!(a.mul_exact(&b).coeffs, vec![11, -2]);
    assert_eq!(a.add(&b).coeffs, vec![4, 2]);
    assert_eq!(a.inf_norm(), 2);
    assert_eq!(PolyI128::zero(2).inf_norm(), 0);
    assert_eq!(PolyI128 { coeffs: vec![] }.inf_norm(), 0);
    assert_eq!(PolyI128::zero(3).len(), 3);
    assert!(PolyI128::zero(0).is_empty());
}

#[test]
fn reduce_maps_negatives_into_range() {
    let q = q();
    let p = PolyI128 { coeffs: vec![-1, -17, -18, 35, 0] };
    assert_eq!(p.reduce(&q).coeffs, vec![16, 0, 16, 1, 0]);
}

#[test]
fn scale_round_exact_values() {
    let p = PolyI128 { coeffs: vec![499, 500, -500, -501, 1500, 7] };
    assert_eq!(p.scale_round(1, 1000).coeffs, vec![0, 1, 0, -1, 2, 0]);
    // c·t/q = 7·3/4 = 5.25 rounds to 5
    let r = PolyI128 { coeffs: vec![7, -7] };
    assert_eq!(r.scale_round(3, 4).coeffs, vec![5, -5]);
}

#[test]
fn center_of_an_even_modulus() {
    let q = Modulus::new(10);
    let p = Poly::from_coeffs(vec![0, 4, 5, 6, 9]);
    assert_eq!(p.center(&q).coeffs, vec![0, 4, 5, -4, -1]);
    assert_eq!(p.center(&q).reduce(&q), p);
}
