//! Parameter sets, and the conditions they have to satisfy.
//!
//! Every check in [`Params::validate`] stands for a bug that would otherwise
//! surface as a quietly wrong plaintext rather than as an error, so the checks
//! run at construction and refuse rather than warn.

use crate::arith::{
    is_pow2, lemma_fermat_unit, lemma_no_small_factor_prime, lemma_odd_part,
    lemma_pow2_0, lemma_pow_square_step, lemma_sqrt_one, lemma_square_multiply_step, odd_part,
    strong_probable_prime, two_adic,
};
use crate::modulus::{Modulus, MODULUS_LIMIT};
use crate::ring::{abs, lemma_max_abs_nonneg, lemma_mul_exact_fits, max_abs, mul_exact_in_range};
use crate::ring_laws::lemma_max_abs_le;
use vstd::arithmetic::div_mod::*;
use vstd::arithmetic::mul::*;
use vstd::arithmetic::power::*;
use vstd::arithmetic::power2::*;
use vstd::prelude::*;
use vstd::string::StringExecFns;

verus! {

/// A BFV parameter set.
#[derive(Clone, Copy, PartialEq, Eq, Debug, Structural)]
pub struct Params {
    /// Ring degree, a power of two.
    pub n: usize,
    /// Ciphertext modulus: prime, and `≡ 1 (mod 2N)` so the transform exists.
    pub q: u64,
    /// Plaintext modulus.
    pub t: u64,
    /// Relinearisation decomposition base.
    pub relin_base: u64,
}

#[derive(Clone, Copy, PartialEq, Eq, Debug, Structural)]
pub enum ParamError {
    DegreeNotPowerOfTwo(usize),
    ModulusNotNttFriendly { q: u64, n: usize },
    ModulusNotPrime(u64),
    PlaintextModulusTooLarge { t: u64, q: u64 },
    TensorOverflow { n: usize, q: u64 },
    RelinBaseTooSmall(u64),
}

/// The twelve primes up to 37: trial divisors, then Miller–Rabin witnesses.
pub open spec fn small_primes() -> Seq<u64> {
    seq![2u64, 3, 5, 7, 11, 13, 17, 19, 23, 29, 31, 37]
}

/// What the primality test accepts: one of the small primes itself, or a
/// number with no small prime factor that is a strong probable prime to all
/// twelve small-prime bases.
pub open spec fn miller_rabin_accepts(n: u64) -> bool {
    &&& n >= 2
    &&& {
        ||| small_primes().contains(n)
        ||| {
            &&& forall|i: int| 0 <= i < 12 ==> #[trigger] (n % small_primes()[i]) != 0
            &&& forall|i: int|
                0 <= i < 12 ==> strong_probable_prime(n as int, #[trigger] small_primes()[i] as int)
        }
    }
}

/// The outcome of validation: the first condition that fails, in the order
/// the checks run.
pub open spec fn validate_spec(p: Params) -> Result<(), ParamError> {
    if !is_pow2(p.n as nat) {
        Err(ParamError::DegreeNotPowerOfTwo(p.n))
    } else if !miller_rabin_accepts(p.q) {
        Err(ParamError::ModulusNotPrime(p.q))
    } else if (p.q - 1) % (2 * p.n) != 0 {
        Err(ParamError::ModulusNotNttFriendly { q: p.q, n: p.n })
    } else if p.relin_base < 2 {
        Err(ParamError::RelinBaseTooSmall(p.relin_base))
    } else if p.t == 0 || p.t * 1024 >= p.q {
        Err(ParamError::PlaintextModulusTooLarge { t: p.t, q: p.q })
    } else if p.n * p.q * p.q > i128::MAX / 4 {
        Err(ParamError::TensorOverflow { n: p.n, q: p.q })
    } else {
        Ok(())
    }
}

/// The inputs on which validation runs without overflow: `2·N` has to fit in
/// a `u64` once the degree and modulus checks have passed.
pub open spec fn validate_in_range(p: Params) -> bool {
    is_pow2(p.n as nat) && miller_rabin_accepts(p.q) ==> 2 * p.n <= u64::MAX
}

impl Params {
    pub fn new(n: usize, q: u64, t: u64, relin_base: u64) -> (r: Result<Params, ParamError>)
        requires
            validate_in_range(Params { n, q, t, relin_base }),
        ensures
            r == (match validate_spec(Params { n, q, t, relin_base }) {
                Ok(_) => Ok::<Params, ParamError>(Params { n, q, t, relin_base }),
                Err(e) => Err(e),
            }),
    {
        let params = Params { n, q, t, relin_base };
        match params.validate() {
            Ok(()) => Ok(params),
            Err(e) => Err(e),
        }
    }

    pub fn validate(&self) -> (r: Result<(), ParamError>)
        requires
            validate_in_range(*self),
        ensures
            r == validate_spec(*self),
    {
        if !is_power_of_two(self.n) {
            return Err(ParamError::DegreeNotPowerOfTwo(self.n));
        }
        if !is_prime(self.q) {
            return Err(ParamError::ModulusNotPrime(self.q));
        }
        if (self.q - 1) % (2 * self.n as u64) != 0 {
            return Err(ParamError::ModulusNotNttFriendly { q: self.q, n: self.n });
        }
        if self.relin_base < 2 {
            return Err(ParamError::RelinBaseTooSmall(self.relin_base));
        }
        // t must leave room for noise: a t anywhere near q leaves no gap for
        // the error to live in.
        let t_too_large = match self.t.checked_mul(1024) {
            Some(scaled) => scaled >= self.q,
            None => true,
        };
        if self.t == 0 || t_too_large {
            return Err(ParamError::PlaintextModulusTooLarge { t: self.t, q: self.q });
        }
        // The tensor product is computed over the integers, its coefficients
        // bounded by N·q², which has to fit in i128 with room to spare.
        let q = self.q as u128;
        proof {
            lemma_mul_upper_bound(self.n as int, u64::MAX as int, q as int, u64::MAX as int);
        }
        let nq = self.n as u128 * q;
        let limit: u128 = 0x1fff_ffff_ffff_ffff_ffff_ffff_ffff_ffff;
        let overflow = match nq.checked_mul(q) {
            Some(bound) => bound > limit,
            None => true,
        };
        if overflow {
            return Err(ParamError::TensorOverflow { n: self.n, q: self.q });
        }
        Ok(())
    }

    /// The ciphertext modulus as a `Modulus`.
    pub fn modulus(&self) -> (m: Modulus)
        requires
            1 < self.q < MODULUS_LIMIT,
        ensures
            m.wf(),
            m@ == self.q,
    {
        Modulus::new(self.q)
    }

    /// `Δ = ⌊q/t⌋`, the factor a plaintext is scaled by.
    pub fn delta(&self) -> (r: u64)
        requires
            self.t > 0,
        ensures
            r == self.q / self.t,
    {
        self.q / self.t
    }

    /// The number of base-`relin_base` digits needed to cover `q`: the least
    /// `d >= 1` with `relin_base^d >= q`.
    pub fn relin_digits(&self) -> (r: usize)
        requires
            self.q > 1 ==> self.relin_base >= 2,
        ensures
            r >= 1,
            self.q <= 1 ==> r == 1,
            pow(self.relin_base as int, r as nat) >= self.q || self.q <= 1,
            r > 1 ==> pow(self.relin_base as int, (r - 1) as nat) < self.q,
    {
        let base = self.relin_base as u128;
        let target = self.q as u128;
        let mut digits: usize = 0;
        let mut covered: u128 = 1;
        proof {
            reveal(pow);
        }
        while covered < target
            invariant
                base == self.relin_base,
                target > 1 ==> base >= 2,
                target <= 1 ==> digits == 0,
                target == self.q,
                covered == pow(base as int, digits as nat),
                digits <= 64,
                covered >= pow2(digits as nat),
                digits > 0 ==> pow(base as int, (digits - 1) as nat) < target,
            decreases 64 - digits,
        {
            proof {
                lemma_mul_upper_bound(covered as int, u64::MAX as int, base as int, u64::MAX as int);
                lemma_pow2_unfold((digits + 1) as nat);
                reveal(pow);
                assert(covered < 0x1_0000_0000_0000_0000);
                if digits >= 64 {
                    if digits > 64 {
                        lemma_pow2_strictly_increases(64, digits as nat);
                    }
                    lemma2_to64_rest();
                }
                lemma_mul_inequality(2, base as int, covered as int);
                lemma_pow2_pos(digits as nat);
                assert(covered * base >= 2 * covered);
            }
            covered = covered * base;
            digits = digits + 1;
        }
        proof {
            reveal(pow);
        }
        if digits > 1 {
            digits
        } else {
            proof {
                if digits == 0 {
                    assert(pow(base as int, 1) == base);
                }
            }
            1
        }
    }
}

/// `n` is a power of two.
pub(crate) fn is_power_of_two(n: usize) -> (r: bool)
    ensures
        r == is_pow2(n as nat),
{
    if n == 0 {
        return false;
    }
    let mut x = n;
    while x % 2 == 0
        invariant
            x > 0,
            is_pow2(x as nat) == is_pow2(n as nat),
        decreases x,
    {
        x = x / 2;
    }
    x == 1
}

/// `(a·b) mod m`, exactly.
fn mod_mul(a: u64, b: u64, m: u64) -> (r: u64)
    requires
        m > 0,
    ensures
        r == (a * b) % (m as int),
        r < m,
{
    proof {
        lemma_mul_upper_bound(a as int, u64::MAX as int, b as int, u64::MAX as int);
    }
    let p = a as u128 * b as u128;
    proof {
        lemma_mod_bound(p as int, m as int);
    }
    (p % m as u128) as u64
}

/// `base^exponent mod m`, by square-and-multiply.
fn mod_pow(base: u64, exponent: u64, m: u64) -> (r: u64)
    requires
        m > 1,
    ensures
        r == pow(base as int, exponent as nat) % (m as int),
{
    let mut e = exponent;
    let mut acc = 1u64;
    let mut b = base % m;
    proof {
        lemma_pow_mod_noop(base as int, exponent as nat, m as int);
        lemma_small_mod(1, m as nat);
    }
    while e > 0
        invariant
            m > 1,
            acc < m,
            b < m,
            (acc * pow(b as int, e as nat)) % (m as int) == pow(base as int, exponent as nat) % (
            m as int),
        decreases e,
    {
        proof {
            lemma_square_multiply_step(acc as int, b as int, e as nat, m as int);
            assert(e & 1 == e % 2) by (bit_vector);
            assert(e >> 1 == e / 2) by (bit_vector);
        }
        if e & 1 == 1 {
            acc = mod_mul(acc, b, m);
        }
        b = mod_mul(b, b, m);
        e = e >> 1;
    }
    proof {
        lemma_pow0(b as int);
        lemma_small_mod(acc as nat, m as nat);
    }
    acc
}

/// One Miller–Rabin round: is `n` (with `n - 1 = 2^r·d`) a strong probable
/// prime to base `a`?
fn passes_round(n: u64, a: u64, d: u64, r: u32) -> (ok: bool)
    requires
        n > 2,
        n % 2 == 1,
        d == odd_part((n - 1) as nat),
        r == two_adic((n - 1) as nat),
    ensures
        ok == strong_probable_prime(n as int, a as int),
{
    let mut x = mod_pow(a, d, n);
    proof {
        lemma_pow2_0();
    }
    if x == 1 {
        return true;
    }
    if x == n - 1 {
        proof {
            assert((d as nat) * pow2(0) == d);
            assert(pow(a as int, (d as nat) * pow2(0)) % (n as int) == n - 1);
            assert(0 < two_adic((n - 1) as nat)) by {
                lemma_odd_part((n - 1) as nat);
                if two_adic((n - 1) as nat) == 0 {
                    assert(odd_part((n - 1) as nat) == n - 1);
                }
            }
        }
        return true;
    }
    let mut i: u32 = 1;
    while i < r
        invariant
            n > 2,
            d == odd_part((n - 1) as nat),
            r == two_adic((n - 1) as nat),
            1 <= i,
            i <= r || r == 0,
            x == pow(a as int, (d as nat) * pow2((i - 1) as nat)) % (n as int),
            pow(a as int, d as nat) % (n as int) != 1,
            forall|j: nat| j < i ==> #[trigger] pow(a as int, (d as nat) * pow2(j)) % (n as int) != n - 1,
        decreases r - i,
    {
        proof {
            lemma_pow_square_step(a as int, d as nat, (i - 1) as nat, n as int);
        }
        x = mod_mul(x, x, n);
        if x == n - 1 {
            return true;
        }
        i = i + 1;
    }
    false
}

/// Trial division by the small primes, then deterministic Miller–Rabin with
/// the same twelve primes as witnesses.
fn is_prime(n: u64) -> (r: bool)
    ensures
        r == miller_rabin_accepts(n),
{
    if n < 2 {
        return false;
    }
    let small: [u64; 12] = [2, 3, 5, 7, 11, 13, 17, 19, 23, 29, 31, 37];
    proof {
        assert(small@ =~= small_primes());
    }
    let mut i: usize = 0;
    while i < 12
        invariant
            n >= 2,
            small@ == small_primes(),
            i <= 12,
            forall|j: int|
                0 <= j < i ==> n != #[trigger] small_primes()[j] && (n % small_primes()[j]) != 0,
        decreases 12 - i,
    {
        let p = small[i];
        assert(p == small_primes()[i as int]);
        if n == p {
            return true;
        }
        if n % p == 0 {
            proof {
                lemma_small_primes_coprime(i as int);
                let s = small_primes();
                assert forall|j: int| 0 <= j < 12 implies #[trigger] s[j] != n by {
                    if j > i {
                        assert(s[j] % s[i as int] != 0);
                    }
                }
                assert(!small_primes().contains(n));
            }
            return false;
        }
        i = i + 1;
    }
    proof {
        assert(!small_primes().contains(n));
    }
    // n - 1 = 2^r · d with d odd.
    let mut d = n - 1;
    let mut r: u32 = 0;
    proof {
        assert(small_primes()[0] == 2);
        assert(n % 2 != 0);
        assert(n != 2);
        lemma2_to64_rest();
        lemma2_to64();
    }
    while d % 2 == 0
        invariant
            d > 0,
            n > 2,
            r < 64,
            odd_part(d as nat) == odd_part((n - 1) as nat),
            two_adic(d as nat) + r == two_adic((n - 1) as nat),
            pow2(r as nat) * d == n - 1,
        decreases d,
    {
        proof {
            lemma_pow2_unfold((r + 1) as nat);
            lemma_mul_is_associative(2, pow2(r as nat) as int, (d / 2) as int);
            assert(d == 2 * (d / 2));
            let pr = pow2(r as nat) as int;
            let h = (d / 2) as int;
            assert((2 * pr) * h == pr * (2 * h)) by (nonlinear_arith);
            assert(pow2((r + 1) as nat) * (d / 2) == n - 1);
            lemma_mul_increases((d / 2) as int, pow2((r + 1) as nat) as int);
            lemma2_to64_rest();
            if r + 1 > 64 {
                lemma_pow2_strictly_increases(64, (r + 1) as nat);
            }
        }
        d = d / 2;
        r = r + 1;
    }
    let mut w: usize = 0;
    while w < 12
        invariant
            n > 2,
            !small_primes().contains(n),
            forall|j: int| 0 <= j < 12 ==> #[trigger] (n % small_primes()[j]) != 0,
            small@ == small_primes(),
            w <= 12,
            d == odd_part((n - 1) as nat),
            r == two_adic((n - 1) as nat),
            forall|j: int|
                0 <= j < w ==> strong_probable_prime(n as int, #[trigger] small_primes()[j] as int),
        decreases 12 - w,
    {
        if !passes_round(n, small[w], d, r) {
            return false;
        }
        w = w + 1;
    }
    true
}

/// No small prime divides a later one: the trial division cannot reject one
/// of the small primes themselves.
proof fn lemma_small_primes_coprime(i: int)
    requires
        0 <= i < 12,
    ensures
        forall|j: int| i < j < 12 ==> #[trigger] (small_primes()[j] % small_primes()[i]) != 0,
{
    let s = small_primes();
    assert forall|j: int| i < j < 12 implies #[trigger] (s[j] % s[i]) != 0 by {
        assert(i == 0 || i == 1 || i == 2 || i == 3 || i == 4 || i == 5 || i == 6 || i == 7 || i
            == 8 || i == 9 || i == 10);
        assert(j == 1 || j == 2 || j == 3 || j == 4 || j == 5 || j == 6 || j == 7 || j == 8 || j
            == 9 || j == 10 || j == 11);
    }
}


/// Each of the twelve small primes is prime.
proof fn lemma_small_primes_are_prime(i: int)
    requires
        0 <= i < 12,
    ensures
        crate::arith::is_prime(small_primes()[i] as int),
{
    let p = small_primes()[i] as int;
    assert(i == 0 || i == 1 || i == 2 || i == 3 || i == 4 || i == 5 || i == 6 || i == 7 || i == 8
        || i == 9 || i == 10 || i == 11);
    if i == 0 {
        assert(forall|d: int| 1 < d < 2 ==> #[trigger] (2int % d) != 0);
    }
    if i == 1 {
        assert forall|d: int| 1 < d < 3 implies #[trigger] (3int % d) != 0 by {
            assert(d == 2);
        }
    }
    if i == 2 {
        assert forall|d: int| 1 < d < 5 implies #[trigger] (5int % d) != 0 by {
            assert(d == 2 || d == 3 || d == 4);
        }
    }
    if i == 3 {
        assert forall|d: int| 1 < d < 7 implies #[trigger] (7int % d) != 0 by {
            assert(d == 2 || d == 3 || d == 4 || d == 5 || d == 6);
        }
    }
    if i == 4 {
        assert forall|d: int| 1 < d < 11 implies #[trigger] (11int % d) != 0 by {
            assert(d == 2 || d == 3 || d == 4 || d == 5 || d == 6 || d == 7 || d == 8 || d == 9 || d == 10);
        }
    }
    if i == 5 {
        assert forall|d: int| 1 < d < 13 implies #[trigger] (13int % d) != 0 by {
            assert(d == 2 || d == 3 || d == 4 || d == 5 || d == 6 || d == 7 || d == 8 || d == 9 || d == 10 || d == 11 || d == 12);
        }
    }
    if i == 6 {
        assert forall|d: int| 1 < d < 17 implies #[trigger] (17int % d) != 0 by {
            assert(d == 2 || d == 3 || d == 4 || d == 5 || d == 6 || d == 7 || d == 8 || d == 9 || d == 10 || d == 11 || d == 12 || d == 13 || d == 14 || d == 15 || d == 16);
        }
    }
    if i == 7 {
        assert forall|d: int| 1 < d < 19 implies #[trigger] (19int % d) != 0 by {
            assert(d == 2 || d == 3 || d == 4 || d == 5 || d == 6 || d == 7 || d == 8 || d == 9 || d == 10 || d == 11 || d == 12 || d == 13 || d == 14 || d == 15 || d == 16 || d == 17 || d == 18);
        }
    }
    if i == 8 {
        assert forall|d: int| 1 < d < 23 implies #[trigger] (23int % d) != 0 by {
            assert(d == 2 || d == 3 || d == 4 || d == 5 || d == 6 || d == 7 || d == 8 || d == 9 || d == 10 || d == 11 || d == 12 || d == 13 || d == 14 || d == 15 || d == 16 || d == 17 || d == 18 || d == 19 || d == 20 || d == 21 || d == 22);
        }
    }
    if i == 9 {
        assert forall|d: int| 1 < d < 29 implies #[trigger] (29int % d) != 0 by {
            assert(d == 2 || d == 3 || d == 4 || d == 5 || d == 6 || d == 7 || d == 8 || d == 9 || d == 10 || d == 11 || d == 12 || d == 13 || d == 14 || d == 15 || d == 16 || d == 17 || d == 18 || d == 19 || d == 20 || d == 21 || d == 22 || d == 23 || d == 24 || d == 25 || d == 26 || d == 27 || d == 28);
        }
    }
    if i == 10 {
        assert forall|d: int| 1 < d < 31 implies #[trigger] (31int % d) != 0 by {
            assert(d == 2 || d == 3 || d == 4 || d == 5 || d == 6 || d == 7 || d == 8 || d == 9 || d == 10 || d == 11 || d == 12 || d == 13 || d == 14 || d == 15 || d == 16 || d == 17 || d == 18 || d == 19 || d == 20 || d == 21 || d == 22 || d == 23 || d == 24 || d == 25 || d == 26 || d == 27 || d == 28 || d == 29 || d == 30);
        }
    }
    if i == 11 {
        assert forall|d: int| 1 < d < 37 implies #[trigger] (37int % d) != 0 by {
            assert(d == 2 || d == 3 || d == 4 || d == 5 || d == 6 || d == 7 || d == 8 || d == 9 || d == 10 || d == 11 || d == 12 || d == 13 || d == 14 || d == 15 || d == 16 || d == 17 || d == 18 || d == 19 || d == 20 || d == 21 || d == 22 || d == 23 || d == 24 || d == 25 || d == 26 || d == 27 || d == 28 || d == 29 || d == 30 || d == 31 || d == 32 || d == 33 || d == 34 || d == 35 || d == 36);
        }
    }
}

/// Every prime below 41 is one of the twelve small primes.
proof fn lemma_primes_below_41(p: int)
    requires
        crate::arith::is_prime(p),
        p < 41,
    ensures
        small_primes().contains(p as u64),
{
    assert(p % 2 != 0 || p == 2);
    assert(p % 3 != 0 || p == 3);
    assert(p % 5 != 0 || p == 5);
    assert(p == 2 || p == 3 || p == 5 || p == 7 || p == 11 || p == 13 || p == 17 || p == 19 || p
        == 23 || p == 29 || p == 31 || p == 37) by {
        assert(p == 2 || p == 3 || p == 4 || p == 5 || p == 6 || p == 7 || p == 8 || p == 9 || p == 10 || p == 11 || p == 12 || p == 13 || p == 14 || p == 15 || p == 16 || p == 17 || p == 18 || p == 19 || p == 20 || p == 21 || p == 22 || p == 23 || p == 24 || p == 25 || p == 26 || p == 27 || p == 28 || p == 29 || p == 30 || p == 31 || p == 32 || p == 33 || p == 34 || p == 35 || p == 36 || p == 37 || p == 38 || p == 39 || p == 40);
    }
    let s = small_primes();
    if p == 2 { assert(s[0] == 2); }
    if p == 3 { assert(s[1] == 3); }
    if p == 5 { assert(s[2] == 5); }
    if p == 7 { assert(s[3] == 7); }
    if p == 11 { assert(s[4] == 11); }
    if p == 13 { assert(s[5] == 13); }
    if p == 17 { assert(s[6] == 17); }
    if p == 19 { assert(s[7] == 19); }
    if p == 23 { assert(s[8] == 23); }
    if p == 29 { assert(s[9] == 29); }
    if p == 31 { assert(s[10] == 31); }
    if p == 37 { assert(s[11] == 37); }
}

/// A prime is a strong probable prime to every base it does not divide.
pub proof fn lemma_prime_is_sprp(n: int, a: int)
    requires
        crate::arith::is_prime(n),
        n > 2,
        a >= 0,
        a % n != 0,
    ensures
        strong_probable_prime(n, a),
{
    let d = odd_part((n - 1) as nat);
    let r = two_adic((n - 1) as nat);
    lemma_odd_part((n - 1) as nat);
    lemma_fermat_unit(a as nat, n as nat);
    lemma_mul_is_commutative(pow2(r) as int, d as int);
    assert(d * pow2(r) == n - 1);
    if pow(a, d) % n != 1 {
        lemma_sprp_chain(n, a, d, r);
        lemma_pow2_0();
        assert(d * pow2(0) == d);
    }
}

/// Walking the squarings `a^(d·2^j)` down from `j`: if one of them is 1,
/// either `a^d` is 1 or some earlier one is `-1`.
proof fn lemma_sprp_chain(n: int, a: int, d: nat, j: nat)
    requires
        crate::arith::is_prime(n),
        n > 2,
        pow(a, d * pow2(j)) % n == 1,
    ensures
        pow(a, d * pow2(0)) % n == 1 || exists|i: nat| i < j && #[trigger] pow(a, d * pow2(i)) % n
            == n - 1,
    decreases j,
{
    if j > 0 {
        let j1 = (j - 1) as nat;
        let y = pow(a, d * pow2(j1)) % n;
        lemma_pow_square_step(a, d, j1, n);
        lemma_mod_bound(pow(a, d * pow2(j1)), n);
        if y == 1 {
            lemma_sprp_chain(n, a, d, j1);
        } else {
            lemma_sqrt_one(y, n);
            assert(pow(a, d * pow2(j1)) % n == n - 1);
        }
    }
}

/// The primality test accepts every prime: no prime is ever refused.
pub proof fn lemma_primes_accepted(n: u64)
    requires
        crate::arith::is_prime(n as int),
    ensures
        miller_rabin_accepts(n),
{
    let s = small_primes();
    if !s.contains(n) {
        if n < 41 {
            lemma_primes_below_41(n as int);
        }
        assert forall|i: int| 0 <= i < 12 implies #[trigger] (n % s[i]) != 0 by {
            assert(s[i] <= 37);
            assert(s[i] >= 2);
        }
        assert forall|i: int| 0 <= i < 12 implies strong_probable_prime(
            n as int,
            #[trigger] s[i] as int,
        ) by {
            assert(s[i] <= 37);
            lemma_small_mod(s[i] as nat, n as nat);
            lemma_prime_is_sprp(n as int, s[i] as int);
        }
    }
}

/// Below `41² = 1681` the test is exact: it accepts precisely the primes.
pub proof fn lemma_accepts_exactly_below_1681(n: u64)
    requires
        n < 1681,
    ensures
        miller_rabin_accepts(n) <==> crate::arith::is_prime(n as int),
{
    if crate::arith::is_prime(n as int) {
        lemma_primes_accepted(n);
    }
    if miller_rabin_accepts(n) {
        let s = small_primes();
        if s.contains(n) {
            let i = choose|i: int| 0 <= i < s.len() && s[i] == n;
            lemma_small_primes_are_prime(i);
        } else {
            assert forall|p: int| crate::arith::is_prime(p) && p < 41 implies #[trigger] ((n as int) % p) != 0 by {
                lemma_primes_below_41(p);
                let i = choose|i: int| 0 <= i < s.len() && s[i] == p as u64;
                assert((n % s[i]) != 0);
            }
            lemma_no_small_factor_prime(n as int, 41);
        }
    }
}

/// What an accepted parameter set guarantees: `N` is a power of two and `2N`
/// divides `q - 1` (so the negacyclic transform exists), the plaintext modulus
/// is positive with `1024·t < q`, the relinearisation base is at least 2, and
/// `N·q²` is at most a quarter of `i128::MAX`.
pub proof fn lemma_accepted_params(p: Params)
    requires
        validate_spec(p) is Ok,
    ensures
        is_pow2(p.n as nat),
        p.n >= 1,
        (p.q as int - 1) % (2 * p.n as int) == 0,
        1 <= p.t,
        1024 * (p.t as int) < p.q,
        p.relin_base >= 2,
        (p.n as int) * (p.q as int) * (p.q as int) <= i128::MAX / 4,
{
}

/// Every parameter set meeting all the conditions is accepted: a
/// power-of-two degree, a prime `q` with `2N | q - 1`, a base of at least 2,
/// a positive `t` with `1024·t < q`, and `N·q² <= i128::MAX / 4`.
pub proof fn lemma_valid_params_accepted(p: Params)
    requires
        exists|k: nat| p.n == #[trigger] pow2(k),
        crate::arith::is_prime(p.q as int),
        (p.q as int - 1) % (2 * p.n as int) == 0,
        p.relin_base >= 2,
        1 <= p.t,
        1024 * (p.t as int) < p.q,
        (p.n as int) * (p.q as int) * (p.q as int) <= i128::MAX / 4,
    ensures
        validate_spec(p) is Ok,
{
    crate::arith::lemma_is_pow2_iff(p.n as nat);
    lemma_primes_accepted(p.q);
}

/// A power-of-two degree with a prime modulus that is not `1 mod 2N` is
/// refused as not NTT-friendly, whatever the plaintext modulus and base.
pub proof fn lemma_unfriendly_modulus_refused(p: Params)
    requires
        is_pow2(p.n as nat),
        crate::arith::is_prime(p.q as int),
        (p.q as int - 1) % (2 * p.n as int) != 0,
    ensures
        validate_spec(p) == Err::<(), ParamError>(ParamError::ModulusNotNttFriendly { q: p.q, n: p.n }),
{
    lemma_primes_accepted(p.q);
}

/// An accepted modulus has no factor among the primes up to 37 and is a
/// strong probable prime to every one of them as a base; below `41² = 1681`
/// it is prime.
pub proof fn lemma_accepted_modulus_passes_every_base(p: Params)
    requires
        validate_spec(p) is Ok,
    ensures
        forall|b: int|
            #![trigger strong_probable_prime(p.q as int, b)]
            (b == 2 || b == 3 || b == 5 || b == 7 || b == 11 || b == 13 || b == 17 || b == 19 || b
                == 23 || b == 29 || b == 31 || b == 37) ==> (p.q as int) % b != 0
                && strong_probable_prime(p.q as int, b),
        p.q < 1681 ==> crate::arith::is_prime(p.q as int),
{
    let s = small_primes();
    let q = p.q;
    assert(q > 1024);
    assert(!s.contains(q)) by {
        if s.contains(q) {
            let i = choose|i: int| 0 <= i < s.len() && s[i] == q;
            assert(s[i] <= 37);
        }
    }
    assert forall|b: int|
        (b == 2 || b == 3 || b == 5 || b == 7 || b == 11 || b == 13 || b == 17 || b == 19 || b == 23
            || b == 29 || b == 31 || b == 37) implies (q as int) % b != 0 && #[trigger] strong_probable_prime(
        q as int,
        b,
    ) by {
        let i: int = if b == 2 {
            0
        } else if b == 3 {
            1
        } else if b == 5 {
            2
        } else if b == 7 {
            3
        } else if b == 11 {
            4
        } else if b == 13 {
            5
        } else if b == 17 {
            6
        } else if b == 19 {
            7
        } else if b == 23 {
            8
        } else if b == 29 {
            9
        } else if b == 31 {
            10
        } else {
            11
        };
        assert(s[i] as int == b);
        assert(strong_probable_prime(q as int, s[i] as int));
        assert((q % s[i]) != 0);
    }
    if q < 1681 {
        lemma_accepts_exactly_below_1681(q);
    }
}

/// Validated parameters leave room for the exact tensor product: two
/// polynomials of degree `N` with coefficients at most `q` in absolute value
/// (residues, or their centered lifts) multiply exactly without leaving
/// `i128`.
pub proof fn lemma_tensor_fits(p: Params, a: Seq<int>, b: Seq<int>)
    requires
        validate_spec(p) is Ok,
        a.len() == p.n,
        b.len() == p.n,
        forall|i: int| 0 <= i < a.len() ==> #[trigger] abs(a[i]) <= p.q,
        forall|i: int| 0 <= i < b.len() ==> #[trigger] abs(b[i]) <= p.q,
    ensures
        mul_exact_in_range(a, b),
{
    let n = p.n as int;
    let q = p.q as int;
    lemma_max_abs_le(a, q);
    lemma_max_abs_le(b, q);
    lemma_max_abs_nonneg(a);
    lemma_max_abs_nonneg(b);
    let a_norm = max_abs(a);
    let b_norm = max_abs(b);
    assert(n * q * q <= i128::MAX / 4);
    assert(n * (a_norm * b_norm) <= n * q * q) by (nonlinear_arith)
        requires
            0 <= a_norm <= q,
            0 <= b_norm <= q,
            n >= 0,
    ;
    lemma_mul_exact_fits(a, b);
}

/// The character of the decimal digit `d`.
pub open spec fn digit_char(d: nat) -> char {
    (48 + d) as char
}

/// The decimal representation of `n`, without leading zeros.
pub open spec fn decimal_spec(n: nat) -> Seq<char>
    decreases n,
{
    if n < 10 {
        seq![digit_char(n)]
    } else {
        decimal_spec(n / 10) + seq![digit_char(n % 10)]
    }
}

/// The message each parameter error is reported with.
pub open spec fn message_spec(e: ParamError) -> Seq<char> {
    match e {
        ParamError::DegreeNotPowerOfTwo(n) => "ring degree "@ + decimal_spec(n as nat)
            + " is not a power of two"@,
        ParamError::ModulusNotNttFriendly { q, n } => "q = "@ + decimal_spec(q as nat)
            + " is not 1 mod 2N for N = "@ + decimal_spec(n as nat)
            + ", so no negacyclic NTT exists"@,
        ParamError::ModulusNotPrime(q) => "q = "@ + decimal_spec(q as nat) + " is not prime"@,
        ParamError::PlaintextModulusTooLarge { t, q } => "plaintext modulus "@ + decimal_spec(
            t as nat,
        ) + " must be far below q = "@ + decimal_spec(q as nat),
        ParamError::TensorOverflow { n, q } => "N·q² overflows i128 for N = "@ + decimal_spec(
            n as nat,
        ) + ", q = "@ + decimal_spec(q as nat)
            + ": the BFV tensor product would silently wrap"@,
        ParamError::RelinBaseTooSmall(base) => "relinearisation base "@ + decimal_spec(base as nat)
            + " must exceed 1"@,
    }
}

/// The one-character string of the decimal digit `d`.
fn digit_str(d: u64) -> (s: &'static str)
    requires
        d < 10,
    ensures
        s@ == seq![digit_char(d as nat)],
{
    if d == 0 {
        proof {
            reveal_strlit("0");
        }
        "0"
    } else if d == 1 {
        proof {
            reveal_strlit("1");
        }
        "1"
    } else if d == 2 {
        proof {
            reveal_strlit("2");
        }
        "2"
    } else if d == 3 {
        proof {
            reveal_strlit("3");
        }
        "3"
    } else if d == 4 {
        proof {
            reveal_strlit("4");
        }
        "4"
    } else if d == 5 {
        proof {
            reveal_strlit("5");
        }
        "5"
    } else if d == 6 {
        proof {
            reveal_strlit("6");
        }
        "6"
    } else if d == 7 {
        proof {
            reveal_strlit("7");
        }
        "7"
    } else if d == 8 {
        proof {
            reveal_strlit("8");
        }
        "8"
    } else {
        proof {
            reveal_strlit("9");
        }
        "9"
    }
}

/// `n` in decimal.
fn decimal(n: u64) -> (s: String)
    ensures
        s@ == decimal_spec(n as nat),
    decreases n,
{
    if n < 10 {
        String::from_str(digit_str(n))
    } else {
        let mut s = decimal(n / 10);
        s.append(digit_str(n % 10));
        s
    }
}

impl ParamError {
    /// The message the error is reported with.
    pub fn to_string(&self) -> (s: String)
        ensures
            s@ == message_spec(*self),
    {
        match self {
            ParamError::DegreeNotPowerOfTwo(n) => {
                let mut s = String::from_str("ring degree ");
                s.append(decimal(*n as u64).as_str());
                s.append(" is not a power of two");
                s
            },
            ParamError::ModulusNotNttFriendly { q, n } => {
                let mut s = String::from_str("q = ");
                s.append(decimal(*q).as_str());
                s.append(" is not 1 mod 2N for N = ");
                s.append(decimal(*n as u64).as_str());
                s.append(", so no negacyclic NTT exists");
                s
            },
            ParamError::ModulusNotPrime(q) => {
                let mut s = String::from_str("q = ");
                s.append(decimal(*q).as_str());
                s.append(" is not prime");
                s
            },
            ParamError::PlaintextModulusTooLarge { t, q } => {
                let mut s = String::from_str("plaintext modulus ");
                s.append(decimal(*t).as_str());
                s.append(" must be far below q = ");
                s.append(decimal(*q).as_str());
                s
            },
            ParamError::TensorOverflow { n, q } => {
                let mut s = String::from_str("N·q² overflows i128 for N = ");
                s.append(decimal(*n as u64).as_str());
                s.append(", q = ");
                s.append(decimal(*q).as_str());
                s.append(": the BFV tensor product would silently wrap");
                s
            },
            ParamError::RelinBaseTooSmall(base) => {
                let mut s = String::from_str("relinearisation base ");
                s.append(decimal(*base).as_str());
                s.append(" must exceed 1");
                s
            },
        }
    }
}

} // verus!
