//! Parameter validation: one input per refusal, and the accepted set.

use nsc_core::params::{ParamError, Params};

const Q: u64 = 288_230_376_151_736_833;

#[test]
fn the_phase_zero_parameters_are_accepted() {
    let p = Params::new(256, Q, 256, 1 << 16).unwrap();
    assert_eq!(p.n, 256);
    assert_eq!(p.delta(), Q / 256);
    assert_eq!(p.relin_digits(), 4);
    assert_eq!(p.modulus().value(), Q);
    assert_eq!(p.validate(), Ok(()));
}

#[test]
fn a_degree_that_is_not_a_power_of_two_is_refused() {
    assert_eq!(
        Params::new(255, Q, 256, 1 << 16),
        Err(ParamError::DegreeNotPowerOfTwo(255))
    );
    assert_eq!(
        Params::new(0, Q, 256, 1 << 16),
        Err(ParamError::DegreeNotPowerOfTwo(0))
    );
}

#[test]
fn a_composite_modulus_is_refused() {
    assert_eq!(
        Params::new(256, 1_073_750_019, 256, 1 << 16),
        Err(ParamError::ModulusNotPrime(1_073_750_019))
    );
    assert_eq!(Params::new(4, 1, 2, 2), Err(ParamError::ModulusNotPrime(1)));
    assert_eq!(Params::new(4, 1681, 2, 2), Err(ParamError::ModulusNotPrime(1681)));
}

#[test]
fn a_modulus_without_the_right_roots_is_reported() {
    assert_eq!(
        Params::new(64, 97, 2, 2),
        Err(ParamError::ModulusNotNttFriendly { q: 97, n: 64 })
    );
}

#[test]
fn a_relinearisation_base_below_two_is_refused() {
    assert_eq!(
        Params::new(256, Q, 256, 1),
        Err(ParamError::RelinBaseTooSmall(1))
    );
}

#[test]
fn a_plaintext_modulus_near_q_is_refused() {
    assert_eq!(
        Params::new(256, Q, 0, 1 << 16),
        Err(ParamError::PlaintextModulusTooLarge { t: 0, q: Q })
    );
    assert_eq!(
        Params::new(256, Q, Q / 1024 + 1, 1 << 16),
        Err(ParamError::PlaintextModulusTooLarge { t: Q / 1024 + 1, q: Q })
    );
    assert_eq!(
        Params::new(256, Q, u64::MAX, 1 << 16),
        Err(ParamError::PlaintextModulusTooLarge { t: u64::MAX, q: Q })
    );
}

#[test]
fn a_tensor_product_that_would_overflow_is_refused() {
    let q = 2_305_843_009_224_179_713;
    assert_eq!(
        Params::new(1 << 20, q, 256, 1 << 16),
        Err(ParamError::TensorOverflow { n: 1 << 20, q })
    );
}

#[test]
fn small_primes_pass_the_primality_check() {
    // 2N must divide q - 1: N = 1 needs only an odd q.
    assert!(Params::new(1, 3, 0, 2).is_err());
    assert_eq!(
        Params::new(1, 37, 0, 2),
        Err(ParamError::PlaintextModulusTooLarge { t: 0, q: 37 })
    );
    assert_eq!(
        Params::new(1, 1009, 0, 2),
        Err(ParamError::PlaintextModulusTooLarge { t: 0, q: 1009 })
    );
}

#[test]
fn relin_digits_is_the_least_cover() {
    let p = Params { n: 256, q: Q, t: 256, relin_base: 2 };
    assert_eq!(p.relin_digits(), 59);
    let small = Params { n: 1, q: 1, t: 1, relin_base: 7 };
    assert_eq!(small.relin_digits(), 1);
    let exact = Params { n: 1, q: 49, t: 1, relin_base: 7 };
    assert_eq!(exact.relin_digits(), 2);
    let over = Params { n: 1, q: 50, t: 1, relin_base: 7 };
    assert_eq!(over.relin_digits(), 3);
    // Nothing to cover: one digit, whatever the base.
    let trivial = Params { n: 1, q: 1, t: 1, relin_base: 0 };
    assert_eq!(trivial.relin_digits(), 1);
}

#[test]
fn every_parameter_error_has_its_message() {
    assert_eq!(
        ParamError::DegreeNotPowerOfTwo(12).to_string(),
        "ring degree 12 is not a power of two"
    );
    assert_eq!(
        ParamError::ModulusNotNttFriendly { q: 97, n: 64 }.to_string(),
        "q = 97 is not 1 mod 2N for N = 64, so no negacyclic NTT exists"
    );
    assert_eq!(ParamError::ModulusNotPrime(91).to_string(), "q = 91 is not prime");
    assert_eq!(
        ParamError::PlaintextModulusTooLarge { t: 0, q: 288230376151736833 }.to_string(),
        "plaintext modulus 0 must be far below q = 288230376151736833"
    );
    assert_eq!(
        ParamError::TensorOverflow { n: 1024, q: 18446744073709551615 }.to_string(),
        "N·q² overflows i128 for N = 1024, q = 18446744073709551615: the BFV tensor product \
         would silently wrap"
    );
    assert_eq!(
        ParamError::RelinBaseTooSmall(1).to_string(),
        "relinearisation base 1 must exceed 1"
    );
}
