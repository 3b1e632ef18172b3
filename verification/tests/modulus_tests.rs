//! Exact values of the modular arithmetic.

use nsc_core::modulus::Modulus;

const Q: u64 = 1_073_750_017;

#[test]
fn add_wraps_once_past_the_modulus() {
    let q = Modulus::new(Q);
    assert_eq!(q.add(3, 4), 7);
    assert_eq!(q.add(Q - 1, 1), 0);
    assert_eq!(q.add(Q - 1, Q - 1), Q - 2);
}

#[test]
fn sub_adds_the_modulus_when_negative() {
    let q = Modulus::new(Q);
    assert_eq!(q.sub(10, 3), 7);
    assert_eq!(q.sub(0, 1), Q - 1);
    assert_eq!(q.sub(3, 10), Q - 7);
}

#[test]
fn mul_and_reduce_are_remainders() {
    let q = Modulus::new(Q);
    assert_eq!(q.reduce(Q + 5), 5);
    assert_eq!(q.mul(Q - 1, Q - 1), 1);
    assert_eq!(q.mul(1 << 40, 1 << 40), (((1u128 << 80) % Q as u128) as u64));
}

#[test]
fn pow_matches_repeated_multiplication() {
    let q = Modulus::new(7);
    assert_eq!(q.pow(5, 3), 6);
    assert_eq!(q.pow(5, 0), 1);
    assert_eq!(q.pow(0, 0), 1);
    let big = Modulus::new(Q);
    assert_eq!(big.pow(12345, 67890), 878_069_990);
}

#[test]
fn inverse_is_a_multiplicative_inverse_for_a_prime_modulus() {
    let q = Modulus::new(Q);
    assert_eq!(q.inverse(3), Some(715_833_345));
    for a in [1u64, 2, 3, 12345, Q - 1, Q + 2] {
        let inv = q.inverse(a).unwrap();
        assert_eq!(q.mul(a, inv), 1, "a = {a}");
    }
}

#[test]
fn inverse_of_a_multiple_of_the_modulus_is_none() {
    let q = Modulus::new(Q);
    assert_eq!(q.inverse(0), None);
    assert_eq!(q.inverse(Q), None);
    assert_eq!(q.inverse(2 * Q), None);
}

#[test]
fn center_picks_the_representative_in_the_half_open_interval() {
    let even = Modulus::new(10);
    assert_eq!(even.center(5), 5);
    assert_eq!(even.center(6), -4);
    assert_eq!(even.center(0), 0);
    let odd = Modulus::new(11);
    assert_eq!(odd.center(5), 5);
    assert_eq!(odd.center(6), -5);
    assert_eq!(odd.center(10), -1);
}

#[test]
fn value_returns_the_modulus() {
    assert_eq!(Modulus::new(Q).value(), Q);
}
