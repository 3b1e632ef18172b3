//! Arithmetic modulo a single machine-word prime.
//!
//! Plain remainders, no Montgomery or Barrett form: `u128` intermediates keep
//! every product exact.

use crate::arith::{is_prime, lemma_fermat_inverse, lemma_square_multiply_step};
use vstd::arithmetic::div_mod::*;
use vstd::arithmetic::mul::*;
use vstd::arithmetic::power::*;
use vstd::prelude::*;

verus! {

/// Every modulus lies strictly below `2^62`, which keeps `a + b` inside `u64`
/// and every product inside `u128`.
pub const MODULUS_LIMIT: u64 = 0x4000_0000_0000_0000;

/// A modulus in `(1, 2^62)`, with the arithmetic that goes with it.
#[derive(Clone, Copy, PartialEq, Eq, Debug, Structural)]
pub struct Modulus {
    q: u64,
}

impl View for Modulus {
    type V = int;

    closed spec fn view(&self) -> int {
        self.q as int
    }
}

/// `a + b`, less `q` once if it reaches `q`.
pub open spec fn add_spec(a: int, b: int, q: int) -> int {
    if a + b >= q {
        a + b - q
    } else {
        a + b
    }
}

/// `a - b`, plus `q` when `b` exceeds `a`.
pub open spec fn sub_spec(a: int, b: int, q: int) -> int {
    if a >= b {
        a - b
    } else {
        a + q - b
    }
}

/// The inputs on which `sub` stays inside `u64`.
pub open spec fn sub_in_range(a: int, b: int, q: int) -> bool {
    a >= b || (a + q <= u64::MAX && a + q >= b)
}

/// The Fermat inverse: `a^(q-2) mod q`, or nothing for a multiple of `q`.
pub open spec fn inverse_spec(a: int, q: int) -> Option<u64> {
    if a % q == 0 {
        None
    } else {
        Some((pow(a, (q - 2) as nat) % q) as u64)
    }
}

/// The signed representative: residues above `q/2` move down by `q`.
pub open spec fn center_spec(a: int, q: int) -> int {
    if a > q / 2 {
        a - q
    } else {
        a
    }
}

impl Modulus {
    /// The modulus lies in `(1, 2^62)`.
    pub open spec fn wf(&self) -> bool {
        1 < self@ && self@ < MODULUS_LIMIT
    }

    /// The modulus `q`; callers must keep `q` in `(1, 2^62)`.
    pub fn new(q: u64) -> (m: Self)
        requires
            1 < q,
            q < MODULUS_LIMIT,
        ensures
            m.wf(),
            m@ == q,
    {
        Modulus { q }
    }

    pub fn value(&self) -> (r: u64)
        ensures
            r == self@,
    {
        self.q
    }

    pub fn reduce(&self, a: u64) -> (r: u64)
        requires
            self.wf(),
        ensures
            r == (a as int) % self@,
    {
        a % self.q
    }

    pub fn add(&self, a: u64, b: u64) -> (r: u64)
        requires
            self.wf(),
            a + b <= u64::MAX,
        ensures
            r == add_spec(a as int, b as int, self@),
            a < self@ && b < self@ ==> r == (a + b) % self@ && r < self@,
    {
        proof {
            if a < self.q && b < self.q {
                lemma_add_once(a as int, b as int, self.q as int);
            }
        }
        let s = a + b;
        if s >= self.q {
            s - self.q
        } else {
            s
        }
    }

    pub fn sub(&self, a: u64, b: u64) -> (r: u64)
        requires
            self.wf(),
            sub_in_range(a as int, b as int, self@),
        ensures
            r == sub_spec(a as int, b as int, self@),
            a < self@ && b < self@ ==> r == (a - b) % self@ && r < self@,
    {
        proof {
            if a < self.q && b < self.q {
                lemma_sub_once(a as int, b as int, self.q as int);
            }
        }
        if a >= b {
            a - b
        } else {
            a + self.q - b
        }
    }

    pub fn mul(&self, a: u64, b: u64) -> (r: u64)
        requires
            self.wf(),
        ensures
            r == (a * b) % self@,
    {
        proof {
            lemma_mul_upper_bound(a as int, u64::MAX as int, b as int, u64::MAX as int);
        }
        let p = a as u128 * b as u128;
        let r = p % self.q as u128;
        proof {
            lemma_mod_bound(p as int, self.q as int);
        }
        r as u64
    }

    /// `base^exponent mod q`, by square-and-multiply.
    pub fn pow(&self, base: u64, exponent: u64) -> (r: u64)
        requires
            self.wf(),
        ensures
            r == pow(base as int, exponent as nat) % self@,
    {
        let q = self.q;
        let mut e = exponent;
        let mut acc = 1u64;
        let mut b = base % q;
        proof {
            lemma_pow_mod_noop(base as int, exponent as nat, q as int);
            lemma_small_mod(1, q as nat);
        }
        while e > 0
            invariant
                self.wf(),
                q == self@,
                acc < q,
                b < q,
                (acc * pow(b as int, e as nat)) % (q as int) == pow(base as int, exponent as nat)
                    % (q as int),
            decreases e,
        {
            proof {
                lemma_square_multiply_step(acc as int, b as int, e as nat, q as int);
                assert(e & 1 == e % 2) by (bit_vector);
                assert(e >> 1 == e / 2) by (bit_vector);
            }
            if e & 1 == 1 {
                acc = self.mul(acc, b);
            }
            b = self.mul(b, b);
            e = e >> 1;
        }
        proof {
            lemma_pow0(b as int);
            lemma_small_mod(acc as nat, q as nat);
        }
        acc
    }

    /// The inverse by Fermat's little theorem: `a^(q-2)`, or `None` where `a`
    /// is zero modulo `q`.
    pub fn inverse(&self, a: u64) -> (r: Option<u64>)
        requires
            self.wf(),
        ensures
            r == inverse_spec(a as int, self@),
    {
        if a % self.q == 0 {
            return None;
        }
        Some(self.pow(a, self.q - 2))
    }

    /// The signed representative in `(-q/2, q/2]` of a residue.
    pub fn center(&self, a: u64) -> (r: i128)
        requires
            self.wf(),
        ensures
            r == center_spec(a as int, self@),
            a < self@ ==> (r as int) % self@ == a && self@ / 2 - self@ < r <= self@ / 2,
    {
        proof {
            if a < self.q && a > self.q / 2 {
                lemma_mod_add_multiples_vanish(a - self.q, self.q as int);
                lemma_small_mod(a as nat, self.q as nat);
            } else if a < self.q {
                lemma_small_mod(a as nat, self.q as nat);
            }
        }
        let a = a as i128;
        let q = self.q as i128;
        if a > q / 2 {
            a - q
        } else {
            a
        }
    }
}

/// For a prime modulus, `inverse` finds the multiplicative inverse of every
/// `a` that is not a multiple of `q`, and only those have one.
pub proof fn lemma_inverse_law(a: u64, q: int)
    requires
        is_prime(q),
        q < MODULUS_LIMIT,
    ensures
        inverse_spec(a as int, q) is None <==> (a as int) % q == 0,
        inverse_spec(a as int, q) matches Some(x) ==> ((a as int) * x) % q == 1 && x < q,
{
    if (a as int) % q != 0 {
        lemma_fermat_inverse(a as nat, q as nat);
        lemma_mod_bound(pow(a as int, (q - 2) as nat), q);
    }
}

/// Adding two residues and subtracting `q` at most once lands on the residue
/// of the sum.
pub proof fn lemma_add_once(a: int, b: int, q: int)
    requires
        0 <= a < q,
        0 <= b < q,
    ensures
        add_spec(a, b, q) == (a + b) % q,
        add_spec(a, b, q) < q,
{
    if a + b >= q {
        lemma_mod_sub_multiples_vanish(a + b, q);
        lemma_small_mod((a + b - q) as nat, q as nat);
    } else {
        lemma_small_mod((a + b) as nat, q as nat);
    }
}

/// Subtracting two residues and adding `q` at most once lands on the residue
/// of the difference.
pub proof fn lemma_sub_once(a: int, b: int, q: int)
    requires
        0 <= a < q,
        0 <= b < q,
    ensures
        sub_spec(a, b, q) == (a - b) % q,
        0 <= sub_spec(a, b, q) < q,
{
    if a >= b {
        lemma_small_mod((a - b) as nat, q as nat);
    } else {
        lemma_mod_add_multiples_vanish(a - b, q);
        lemma_small_mod((a - b + q) as nat, q as nat);
    }
}

} // verus!
