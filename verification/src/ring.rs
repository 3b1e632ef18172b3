//! The ring `R_q = Z_q[X]/(X^N + 1)`.
//!
//! Two representations of a polynomial: `Poly`, coefficients reduced modulo
//! `q`, and `PolyI128`, exact signed coefficients that are not reduced (the BFV
//! tensor product has to be computed over the integers before scaling).
//!
//! `X^N = -1` makes every product negacyclic: a term that wraps past degree
//! `N` comes back with its sign flipped.

use crate::modulus::{add_spec, center_spec, sub_in_range, sub_spec, Modulus};
use vstd::arithmetic::div_mod::*;
use vstd::arithmetic::mul::*;
use vstd::prelude::*;

verus! {

/// A polynomial in `R_q`, in coefficient form.
#[derive(Clone, PartialEq, Eq, Debug)]
pub struct Poly {
    pub coeffs: Vec<u64>,
}

/// A polynomial with exact, unreduced, signed coefficients.
#[derive(Clone, PartialEq, Eq, Debug)]
pub struct PolyI128 {
    pub coeffs: Vec<i128>,
}

/// The coefficients of a `Poly` as integers.
pub open spec fn u64s(s: Seq<u64>) -> Seq<int> {
    Seq::new(s.len(), |i: int| s[i] as int)
}

/// The coefficients of a `PolyI128` as integers.
pub open spec fn i128s(s: Seq<i128>) -> Seq<int> {
    Seq::new(s.len(), |i: int| s[i] as int)
}

/// The index `j` of `b` that row `i` of a negacyclic product sends to
/// coefficient `k`: `i + j` is `k` or `k + n`.
pub open spec fn wrap_index(i: int, k: int, n: int) -> int {
    if k >= i {
        k - i
    } else {
        k + n - i
    }
}

/// What row `i` (the terms `a[i]·b[j]`) contributes to coefficient `k` of the
/// negacyclic product: `+a[i]·b[k-i]` without a wrap, `-a[i]·b[k+n-i]` with
/// one.
pub open spec fn nc_term(a: Seq<int>, b: Seq<int>, i: int, k: int) -> int {
    if k >= i {
        a[i] * b[k - i]
    } else {
        -(a[i] * b[k + a.len() - i])
    }
}

/// Coefficient `k` of the negacyclic product, over the rows below `i`.
pub open spec fn nc_partial(a: Seq<int>, b: Seq<int>, i: nat, k: int) -> int
    decreases i,
{
    if i == 0 {
        0
    } else {
        nc_partial(a, b, (i - 1) as nat, k) + nc_term(a, b, i - 1, k)
    }
}

/// Coefficient `k` of `a·b` in `Z[X]/(X^n + 1)`, over the integers:
/// `Σ_{i+j=k} a_i b_j - Σ_{i+j=k+n} a_i b_j`.
pub open spec fn negacyclic_coeff(a: Seq<int>, b: Seq<int>, k: int) -> int {
    nc_partial(a, b, a.len(), k)
}

/// The inputs on which the exact negacyclic product never leaves `i128`:
/// every product of two coefficients fits, and so does every running sum of
/// the first `i` rows of each coefficient.
pub open spec fn mul_exact_in_range(a: Seq<int>, b: Seq<int>) -> bool {
    &&& forall|i: int, j: int|
        #![trigger a[i], b[j]]
        0 <= i < a.len() && 0 <= j < b.len() ==> i128::MIN <= a[i] * b[j] <= i128::MAX
    &&& forall|i: nat, k: int|
        i <= a.len() && 0 <= k < a.len() ==> i128::MIN <= #[trigger] nc_partial(a, b, i, k)
            <= i128::MAX
}

/// The largest absolute value in `s`, or 0 for an empty sequence.
pub open spec fn max_abs(s: Seq<int>) -> int
    decreases s.len(),
{
    if s.len() == 0 {
        0
    } else {
        let rest = max_abs(s.drop_last());
        let last = if s.last() < 0 {
            -s.last()
        } else {
            s.last()
        };
        if last > rest {
            last
        } else {
            rest
        }
    }
}

/// `|x|`
pub open spec fn abs(x: int) -> int {
    if x < 0 {
        -x
    } else {
        x
    }
}

/// The `Poly` rounding of `c·t/q`: the nearest integer, halves rounded up.
pub open spec fn scale_round_spec(c: int, t: int, q: int) -> int {
    (c * t + q / 2) / q
}

/// The two halves of the split that `scale_round` computes `c·t/q` with:
/// `c = quo·q + rem`, giving `quo·t` and the rounded `(rem·t + q/2)/q`.
pub open spec fn scale_high(c: int, t: int, q: int) -> int {
    (c / q) * t
}

pub open spec fn scale_low(c: int, t: int, q: int) -> int {
    ((c % q) * t + q / 2) / q
}

impl Poly {
    pub fn zero(n: usize) -> (p: Poly)
        ensures
            p.coeffs@ == Seq::new(n as nat, |i: int| 0u64),
    {
        Poly { coeffs: vec_of_u64(0, n) }
    }

    pub fn from_coeffs(coeffs: Vec<u64>) -> (p: Poly)
        ensures
            p.coeffs@ == coeffs@,
    {
        Poly { coeffs }
    }

    pub fn len(&self) -> (r: usize)
        ensures
            r == self.coeffs@.len(),
    {
        self.coeffs.len()
    }

    pub fn is_empty(&self) -> (r: bool)
        ensures
            r == (self.coeffs@.len() == 0),
    {
        self.coeffs.len() == 0
    }

    /// Coefficient-wise sum modulo `q`.
    pub fn add(&self, other: &Poly, q: &Modulus) -> (r: Poly)
        requires
            q.wf(),
            self.coeffs@.len() == other.coeffs@.len(),
            forall|i: int|
                0 <= i < self.coeffs@.len() ==> self.coeffs@[i] + other.coeffs@[i] <= u64::MAX,
        ensures
            r.coeffs@.len() == self.coeffs@.len(),
            forall|i: int|
                0 <= i < self.coeffs@.len() ==> r.coeffs@[i] == add_spec(
                    self.coeffs@[i] as int,
                    other.coeffs@[i] as int,
                    q@,
                ),
    {
        let n = self.coeffs.len();
        let mut out: Vec<u64> = Vec::with_capacity(n);
        for i in 0..n
            invariant
                q.wf(),
                n == self.coeffs@.len(),
                n == other.coeffs@.len(),
                out@.len() == i,
                forall|k: int| 0 <= k < n ==> self.coeffs@[k] + other.coeffs@[k] <= u64::MAX,
                forall|k: int|
                    0 <= k < i ==> out@[k] == add_spec(
                        self.coeffs@[k] as int,
                        other.coeffs@[k] as int,
                        q@,
                    ),
        {
            out.push(q.add(self.coeffs[i], other.coeffs[i]));
        }
        Poly { coeffs: out }
    }

    /// Coefficient-wise difference modulo `q`.
    pub fn sub(&self, other: &Poly, q: &Modulus) -> (r: Poly)
        requires
            q.wf(),
            self.coeffs@.len() == other.coeffs@.len(),
            forall|i: int|
                0 <= i < self.coeffs@.len() ==> sub_in_range(
                    self.coeffs@[i] as int,
                    other.coeffs@[i] as int,
                    q@,
                ),
        ensures
            r.coeffs@.len() == self.coeffs@.len(),
            forall|i: int|
                0 <= i < self.coeffs@.len() ==> r.coeffs@[i] == sub_spec(
                    self.coeffs@[i] as int,
                    other.coeffs@[i] as int,
                    q@,
                ),
    {
        let n = self.coeffs.len();
        let mut out: Vec<u64> = Vec::with_capacity(n);
        for i in 0..n
            invariant
                q.wf(),
                n == self.coeffs@.len(),
                n == other.coeffs@.len(),
                out@.len() == i,
                forall|k: int|
                    0 <= k < n ==> sub_in_range(
                        self.coeffs@[k] as int,
                        other.coeffs@[k] as int,
                        q@,
                    ),
                forall|k: int|
                    0 <= k < i ==> out@[k] == sub_spec(
                        self.coeffs@[k] as int,
                        other.coeffs@[k] as int,
                        q@,
                    ),
        {
            out.push(q.sub(self.coeffs[i], other.coeffs[i]));
        }
        Poly { coeffs: out }
    }

    /// Coefficient-wise negation modulo `q`: `0 - a`, plus `q`.
    pub fn neg(&self, q: &Modulus) -> (r: Poly)
        requires
            q.wf(),
            forall|i: int| 0 <= i < self.coeffs@.len() ==> self.coeffs@[i] <= q@,
        ensures
            r.coeffs@.len() == self.coeffs@.len(),
            forall|i: int|
                0 <= i < self.coeffs@.len() ==> r.coeffs@[i] == sub_spec(
                    0,
                    self.coeffs@[i] as int,
                    q@,
                ),
    {
        let n = self.coeffs.len();
        let mut out: Vec<u64> = Vec::with_capacity(n);
        for i in 0..n
            invariant
                q.wf(),
                n == self.coeffs@.len(),
                out@.len() == i,
                forall|k: int| 0 <= k < n ==> self.coeffs@[k] <= q@,
                forall|k: int|
                    0 <= k < i ==> out@[k] == sub_spec(0, self.coeffs@[k] as int, q@),
        {
            out.push(q.sub(0, self.coeffs[i]));
        }
        Poly { coeffs: out }
    }

    /// Multiply by a scalar, modulo `q`.
    pub fn scalar_mul(&self, scalar: u64, q: &Modulus) -> (r: Poly)
        requires
            q.wf(),
        ensures
            r.coeffs@.len() == self.coeffs@.len(),
            forall|i: int|
                0 <= i < self.coeffs@.len() ==> r.coeffs@[i] == (self.coeffs@[i] * scalar) % q@,
    {
        let n = self.coeffs.len();
        let mut out: Vec<u64> = Vec::with_capacity(n);
        for i in 0..n
            invariant
                q.wf(),
                n == self.coeffs@.len(),
                out@.len() == i,
                forall|k: int| 0 <= k < i ==> out@[k] == (self.coeffs@[k] * scalar) % q@,
        {
            out.push(q.mul(self.coeffs[i], scalar));
        }
        Poly { coeffs: out }
    }

    /// Schoolbook negacyclic multiplication modulo `q`: quadratic, and the
    /// reference the transform is held to.
    pub fn mul_schoolbook(&self, other: &Poly, q: &Modulus) -> (r: Poly)
        requires
            q.wf(),
            self.coeffs@.len() == other.coeffs@.len(),
        ensures
            r.coeffs@.len() == self.coeffs@.len(),
            forall|k: int|
                0 <= k < self.coeffs@.len() ==> r.coeffs@[k] == negacyclic_coeff(
                    u64s(self.coeffs@),
                    u64s(other.coeffs@),
                    k,
                ) % q@,
    {
        let n = self.coeffs.len();
        let ghost a = u64s(self.coeffs@);
        let ghost b = u64s(other.coeffs@);
        let ghost m = q@;
        let mut acc = vec_of_u64(0, n);
        proof {
            assert forall|k: int| 0 <= k < n implies acc@[k] == nc_partial(a, b, 0, k) % m by {
                lemma_small_mod(0, m as nat);
            }
        }
        for i in 0..n
            invariant
                q.wf(),
                m == q@,
                n == self.coeffs@.len(),
                n == other.coeffs@.len(),
                a == u64s(self.coeffs@),
                b == u64s(other.coeffs@),
                acc@.len() == n,
                forall|k: int| 0 <= k < n ==> acc@[k] == nc_partial(a, b, i as nat, k) % m,
        {
            let ai = self.coeffs[i];
            if ai == 0 {
                proof {
                    assert forall|k: int| 0 <= k < n implies acc@[k] == nc_partial(
                        a,
                        b,
                        (i + 1) as nat,
                        k,
                    ) % m by {
                        assert(a[i as int] == 0);
                        assert(nc_term(a, b, i as int, k) == 0) by {
                            lemma_mul_basics(b[wrap_index(i as int, k, n as int)]);
                        }
                    }
                }
            } else {
            for j in 0..n
                invariant
                    q.wf(),
                    m == q@,
                    i < n,
                    ai == self.coeffs@[i as int],
                    n == self.coeffs@.len(),
                    n == other.coeffs@.len(),
                    a == u64s(self.coeffs@),
                    b == u64s(other.coeffs@),
                    acc@.len() == n,
                    forall|k: int|
                        0 <= k < n ==> acc@[k] == (nc_partial(a, b, i as nat, k) + (if wrap_index(
                            i as int,
                            k,
                            n as int,
                        ) < j {
                            nc_term(a, b, i as int, k)
                        } else {
                            0
                        })) % m,
            {
                let prod = q.mul(ai, other.coeffs[j]);
                let ghost old_acc = acc@;
                if j < n - i {
                    let k = i + j;
                    let cur = acc[k];
                    proof {
                        lemma_mod_bound(nc_partial(a, b, i as nat, k as int), m);
                        lemma_mod_bound(ai * other.coeffs@[j as int], m);
                    }
                    acc.set(k, q.add(cur, prod));
                    proof {
                        let p = nc_partial(a, b, i as nat, k as int);
                        let t = ai * other.coeffs@[j as int];
                        assert(wrap_index(i as int, k as int, n as int) == j);
                        assert(nc_term(a, b, i as int, k as int) == t);
                        lemma_add_mod_noop(p, t, m);
                        lemma_mod_twice(p, m);
                    }
                } else {
                    let kk = j - (n - i);
                    let cur = acc[kk];
                    proof {
                        lemma_mod_bound(nc_partial(a, b, i as nat, kk as int), m);
                        lemma_mod_bound(ai * other.coeffs@[j as int], m);
                    }
                    acc.set(kk, q.sub(cur, prod));
                    proof {
                        let p = nc_partial(a, b, i as nat, kk as int);
                        let t = ai * other.coeffs@[j as int];
                        assert(wrap_index(i as int, kk as int, n as int) == j);
                        assert(nc_term(a, b, i as int, kk as int) == -t);
                        lemma_sub_mod_noop(p, t, m);
                        lemma_mod_twice(p, m);
                    }
                }
                proof {
                    assert forall|k2: int| 0 <= k2 < n implies acc@[k2] == (nc_partial(
                        a,
                        b,
                        i as nat,
                        k2,
                    ) + (if wrap_index(i as int, k2, n as int) < j + 1 {
                        nc_term(a, b, i as int, k2)
                    } else {
                        0
                    })) % m by {
                        if wrap_index(i as int, k2, n as int) != j {
                            assert(acc@[k2] == old_acc[k2]);
                        }
                    }
                }
            }
            proof {
                assert forall|k: int| 0 <= k < n implies acc@[k] == nc_partial(
                    a,
                    b,
                    (i + 1) as nat,
                    k,
                ) % m by {
                    assert(wrap_index(i as int, k, n as int) < n);
                }
            }
        }
        }
        Poly { coeffs: acc }
    }

    /// Centered lift: every coefficient to its representative in
    /// `(-q/2, q/2]`, as a signed integer.
    pub fn center(&self, q: &Modulus) -> (r: PolyI128)
        requires
            q.wf(),
        ensures
            r.coeffs@.len() == self.coeffs@.len(),
            forall|i: int|
                0 <= i < self.coeffs@.len() ==> r.coeffs@[i] == center_spec(
                    self.coeffs@[i] as int,
                    q@,
                ),
    {
        let modulus = q.value() as i128;
        let half = modulus / 2;
        let n = self.coeffs.len();
        let mut out: Vec<i128> = Vec::with_capacity(n);
        for i in 0..n
            invariant
                q.wf(),
                modulus == q@,
                half == q@ / 2,
                n == self.coeffs@.len(),
                out@.len() == i,
                forall|k: int|
                    0 <= k < i ==> out@[k] == center_spec(self.coeffs@[k] as int, q@),
        {
            let c = self.coeffs[i] as i128;
            if c > half {
                out.push(c - modulus);
            } else {
                out.push(c);
            }
        }
        PolyI128 { coeffs: out }
    }
}

impl PolyI128 {
    pub fn zero(n: usize) -> (p: PolyI128)
        ensures
            p.coeffs@ == Seq::new(n as nat, |i: int| 0i128),
    {
        let mut v: Vec<i128> = Vec::with_capacity(n);
        for i in 0..n
            invariant
                v@ == Seq::new(i as nat, |k: int| 0i128),
        {
            v.push(0);
        }
        PolyI128 { coeffs: v }
    }

    pub fn len(&self) -> (r: usize)
        ensures
            r == self.coeffs@.len(),
    {
        self.coeffs.len()
    }

    pub fn is_empty(&self) -> (r: bool)
        ensures
            r == (self.coeffs@.len() == 0),
    {
        self.coeffs.len() == 0
    }

    /// The largest coefficient in absolute value, the norm noise is measured
    /// in; 0 for the empty polynomial.
    pub fn inf_norm(&self) -> (r: i128)
        requires
            forall|i: int| 0 <= i < self.coeffs@.len() ==> self.coeffs@[i] != i128::MIN,
        ensures
            r == max_abs(i128s(self.coeffs@)),
    {
        let ghost s = i128s(self.coeffs@);
        let n = self.coeffs.len();
        let mut best: i128 = 0;
        proof {
            assert(s.take(0) =~= Seq::<int>::empty());
        }
        for i in 0..n
            invariant
                n == self.coeffs@.len(),
                s == i128s(self.coeffs@),
                forall|k: int| 0 <= k < n ==> self.coeffs@[k] != i128::MIN,
                best == max_abs(s.take(i as int)),
        {
            let c = self.coeffs[i];
            let a = if c < 0 {
                -c
            } else {
                c
            };
            if a > best {
                best = a;
            }
            proof {
                assert(s.take(i + 1).drop_last() =~= s.take(i as int));
                assert(s.take(i + 1).last() == c);
            }
        }
        proof {
            assert(s.take(n as int) =~= s);
        }
        best
    }

    /// Exact negacyclic product over the integers, with no reduction. Every
    /// pair whose products and running sums stay inside `i128` is accepted;
    /// `lemma_mul_exact_fits` gives a bound by the norms.
    pub fn mul_exact(&self, other: &PolyI128) -> (r: PolyI128)
        requires
            self.coeffs@.len() == other.coeffs@.len(),
            mul_exact_in_range(i128s(self.coeffs@), i128s(other.coeffs@)),
        ensures
            r.coeffs@.len() == self.coeffs@.len(),
            forall|k: int|
                0 <= k < self.coeffs@.len() ==> r.coeffs@[k] == negacyclic_coeff(
                    i128s(self.coeffs@),
                    i128s(other.coeffs@),
                    k,
                ),
    {
        let n = self.coeffs.len();
        let ghost a = i128s(self.coeffs@);
        let ghost b = i128s(other.coeffs@);
        let mut acc: Vec<i128> = Vec::with_capacity(n);
        for k in 0..n
            invariant
                acc@ == Seq::new(k as nat, |x: int| 0i128),
        {
            acc.push(0);
        }
        for i in 0..n
            invariant
                n == self.coeffs@.len(),
                n == other.coeffs@.len(),
                a == i128s(self.coeffs@),
                b == i128s(other.coeffs@),
                mul_exact_in_range(a, b),
                acc@.len() == n,
                forall|k: int| 0 <= k < n ==> acc@[k] == nc_partial(a, b, i as nat, k),
        {
            let ai = self.coeffs[i];
            if ai == 0 {
                proof {
                    assert forall|k: int| 0 <= k < n implies acc@[k] == nc_partial(
                        a,
                        b,
                        (i + 1) as nat,
                        k,
                    ) by {
                        assert(a[i as int] == 0);
                        assert(nc_term(a, b, i as int, k) == 0) by {
                            lemma_mul_basics(b[wrap_index(i as int, k, n as int)]);
                        }
                    }
                }
            } else {
                for j in 0..n
                    invariant
                        i < n,
                        ai == self.coeffs@[i as int],
                        n == self.coeffs@.len(),
                        n == other.coeffs@.len(),
                        a == i128s(self.coeffs@),
                        b == i128s(other.coeffs@),
                        mul_exact_in_range(a, b),
                        acc@.len() == n,
                        forall|k: int|
                            0 <= k < n ==> acc@[k] == nc_partial(a, b, i as nat, k) + (
                            if wrap_index(i as int, k, n as int) < j {
                                nc_term(a, b, i as int, k)
                            } else {
                                0
                            }),
                {
                    let bj = other.coeffs[j];
                    proof {
                        assert(a[i as int] == ai && b[j as int] == bj);
                    }
                    let prod = ai * bj;
                    let ghost old_acc = acc@;
                    if j < n - i {
                        let k = i + j;
                        proof {
                            assert(wrap_index(i as int, k as int, n as int) == j);
                            assert(nc_partial(a, b, (i + 1) as nat, k as int) == acc@[k as int]
                                + prod);
                        }
                        let cur = acc[k];
                        acc.set(k, cur + prod);
                    } else {
                        let kk = j - (n - i);
                        proof {
                            assert(wrap_index(i as int, kk as int, n as int) == j);
                            assert(nc_partial(a, b, (i + 1) as nat, kk as int) == acc@[kk as int]
                                - prod);
                        }
                        let cur = acc[kk];
                        acc.set(kk, cur - prod);
                    }
                    proof {
                        assert forall|k2: int| 0 <= k2 < n implies acc@[k2] == nc_partial(
                            a,
                            b,
                            i as nat,
                            k2,
                        ) + (if wrap_index(i as int, k2, n as int) < j + 1 {
                            nc_term(a, b, i as int, k2)
                        } else {
                            0
                        }) by {
                            if wrap_index(i as int, k2, n as int) != j {
                                assert(acc@[k2] == old_acc[k2]);
                            }
                        }
                    }
                }
                proof {
                    assert forall|k: int| 0 <= k < n implies acc@[k] == nc_partial(
                        a,
                        b,
                        (i + 1) as nat,
                        k,
                    ) by {
                        assert(wrap_index(i as int, k, n as int) < n);
                    }
                }
            }
        }
        PolyI128 { coeffs: acc }
    }

    /// Coefficient-wise sum over the integers.
    pub fn add(&self, other: &PolyI128) -> (r: PolyI128)
        requires
            self.coeffs@.len() == other.coeffs@.len(),
            forall|i: int|
                #![trigger self.coeffs@[i]]
                0 <= i < self.coeffs@.len() ==> i128::MIN <= self.coeffs@[i] + other.coeffs@[i]
                    <= i128::MAX,
        ensures
            r.coeffs@.len() == self.coeffs@.len(),
            forall|i: int|
                0 <= i < self.coeffs@.len() ==> r.coeffs@[i] == self.coeffs@[i]
                    + other.coeffs@[i],
    {
        let n = self.coeffs.len();
        let mut out: Vec<i128> = Vec::with_capacity(n);
        for i in 0..n
            invariant
                n == self.coeffs@.len(),
                n == other.coeffs@.len(),
                out@.len() == i,
                forall|k: int|
                    #![trigger self.coeffs@[k]]
                    0 <= k < n ==> i128::MIN <= self.coeffs@[k] + other.coeffs@[k] <= i128::MAX,
                forall|k: int| 0 <= k < i ==> out@[k] == self.coeffs@[k] + other.coeffs@[k],
        {
            out.push(self.coeffs[i] + other.coeffs[i]);
        }
        PolyI128 { coeffs: out }
    }

    /// Multiply every coefficient by `t` and divide by `q`, rounding to the
    /// nearest integer (halves upward).
    ///
    /// `c·t` itself may leave `i128` at tensor scale, so the product is split
    /// by Euclidean division, `c = quo·q + rem`, into `quo·t + (rem·t + q/2)/q`,
    /// which is exact and keeps both terms small.
    pub fn scale_round(&self, t: u64, q: u64) -> (r: PolyI128)
        requires
            q > 0,
            forall|i: int|
                0 <= i < self.coeffs@.len() ==> (#[trigger] self.coeffs@[i] as int % q as int) * t
                    + q / 2 <= i128::MAX,
            forall|i: int|
                0 <= i < self.coeffs@.len() ==> i128::MIN <= scale_high(
                    self.coeffs@[i] as int,
                    t as int,
                    q as int,
                ) && scale_high(self.coeffs@[i] as int, t as int, q as int) + scale_low(
                    self.coeffs@[i] as int,
                    t as int,
                    q as int,
                ) <= i128::MAX,
        ensures
            r.coeffs@.len() == self.coeffs@.len(),
            forall|i: int|
                0 <= i < self.coeffs@.len() ==> r.coeffs@[i] == scale_round_spec(
                    self.coeffs@[i] as int,
                    t as int,
                    q as int,
                ),
            forall|i: int|
                0 <= i < self.coeffs@.len() ==> 2 * abs(r.coeffs@[i] * q - self.coeffs@[i] * t)
                    <= q,
    {
        let t = t as i128;
        let q = q as i128;
        let half = q / 2;
        let n = self.coeffs.len();
        let mut out: Vec<i128> = Vec::with_capacity(n);
        for i in 0..n
            invariant
                q > 0,
                half == q / 2,
                t >= 0,
                n == self.coeffs@.len(),
                forall|k: int|
                    0 <= k < n ==> (#[trigger] self.coeffs@[k] as int % q as int) * t + q / 2
                        <= i128::MAX,
                out@.len() == i,
                forall|k: int|
                    0 <= k < n ==> i128::MIN <= scale_high(self.coeffs@[k] as int, t as int, q as int)
                        && scale_high(self.coeffs@[k] as int, t as int, q as int) + scale_low(
                        self.coeffs@[k] as int,
                        t as int,
                        q as int,
                    ) <= i128::MAX,
                forall|k: int|
                    0 <= k < i ==> out@[k] == scale_round_spec(
                        self.coeffs@[k] as int,
                        t as int,
                        q as int,
                    ),
                forall|k: int|
                    0 <= k < i ==> 2 * abs(out@[k] * q - self.coeffs@[k] * t) <= q,
        {
            let c = self.coeffs[i];
            let quotient = match c.checked_div_euclid(q) {
                Some(x) => x,
                None => 0,
            };
            let remainder = match c.checked_rem_euclid(q) {
                Some(x) => x,
                None => 0,
            };
            proof {
                lemma_div_in_range(c as int, q as int);
                assert(quotient == (c as int) / (q as int));
                assert(remainder == (c as int) % (q as int));
                lemma_mod_bound(c as int, q as int);
                lemma_mul_nonnegative(remainder as int, t as int);
                lemma_scale_split(c as int, t as int, q as int);
            }
            let low = (remainder * t + half) / q;
            proof {
                lemma_div_pos_is_pos((remainder * t + half) as int, q as int);
            }
            let high = quotient * t;
            out.push(high + low);
        }
        PolyI128 { coeffs: out }
    }

    /// Reduce every coefficient into `[0, q)`.
    pub fn reduce(&self, q: &Modulus) -> (r: Poly)
        requires
            q.wf(),
        ensures
            r.coeffs@.len() == self.coeffs@.len(),
            forall|i: int|
                0 <= i < self.coeffs@.len() ==> r.coeffs@[i] == (self.coeffs@[i] as int) % q@,
    {
        let modulus = q.value() as i128;
        let n = self.coeffs.len();
        let mut out: Vec<u64> = Vec::with_capacity(n);
        for i in 0..n
            invariant
                q.wf(),
                modulus == q@,
                n == self.coeffs@.len(),
                out@.len() == i,
                forall|k: int| 0 <= k < i ==> out@[k] == (self.coeffs@[k] as int) % q@,
        {
            let c = self.coeffs[i];
            let rem = match c.checked_rem_euclid(modulus) {
                Some(x) => x,
                None => 0,
            };
            proof {
                lemma_mod_bound(c as int, modulus as int);
            }
            out.push(rem as u64);
        }
        Poly { coeffs: out }
    }
}

/// `max_abs` bounds every element and is never negative.
pub proof fn lemma_max_abs_bounds(s: Seq<int>, i: int)
    requires
        0 <= i < s.len(),
    ensures
        abs(s[i]) <= max_abs(s),
    decreases s.len(),
{
    if i < s.len() - 1 {
        lemma_max_abs_bounds(s.drop_last(), i);
    }
}

pub proof fn lemma_max_abs_nonneg(s: Seq<int>)
    ensures
        max_abs(s) >= 0,
    decreases s.len(),
{
    if s.len() > 0 {
        lemma_max_abs_nonneg(s.drop_last());
    }
}

/// A single product `a[i]·b[j]` is bounded by `max|a|·max|b|`.
proof fn lemma_product_bounded(a: Seq<int>, b: Seq<int>, i: int, j: int)
    requires
        0 <= i < a.len(),
        0 <= j < b.len(),
    ensures
        abs(a[i] * b[j]) <= max_abs(a) * max_abs(b),
{
    lemma_max_abs_bounds(a, i);
    lemma_max_abs_bounds(b, j);
    let x = a[i];
    let y = b[j];
    let bx = max_abs(a);
    let by_ = max_abs(b);
    assert(abs(x * y) <= bx * by_) by (nonlinear_arith)
        requires
            abs(x) <= bx,
            abs(y) <= by_,
            abs(x) == (if x < 0 { -x } else { x }),
            abs(y) == (if y < 0 { -y } else { y }),
            abs(x * y) == (if x * y < 0 { -(x * y) } else { x * y }),
    ;
}

/// A bound by the norms: with `N·max|a|·max|b|` inside `i128`, the exact
/// product stays inside `i128` throughout.
pub proof fn lemma_mul_exact_fits(a: Seq<int>, b: Seq<int>)
    requires
        a.len() == b.len(),
        a.len() * (max_abs(a) * max_abs(b)) <= i128::MAX,
    ensures
        mul_exact_in_range(a, b),
{
    let n = a.len() as int;
    let bound = max_abs(a) * max_abs(b);
    lemma_max_abs_nonneg(a);
    lemma_max_abs_nonneg(b);
    lemma_mul_nonnegative(max_abs(a), max_abs(b));
    assert forall|i: int, j: int| 0 <= i < a.len() && 0 <= j < b.len() implies i128::MIN <= #[trigger] a[i]
        * #[trigger] b[j] <= i128::MAX by {
        lemma_product_bounded(a, b, i, j);
        lemma_mul_inequality(1, n, bound);
    }
    assert forall|i: nat, k: int| i <= a.len() && 0 <= k < a.len() implies i128::MIN
        <= #[trigger] nc_partial(a, b, i, k) <= i128::MAX by {
        lemma_nc_partial_bounded(a, b, i, k);
        lemma_mul_inequality(i as int, n, bound);
    }
}

/// The first `i` rows of a negacyclic product add up to at most
/// `i·max|a|·max|b|` in absolute value.
proof fn lemma_nc_partial_bounded(a: Seq<int>, b: Seq<int>, i: nat, k: int)
    requires
        a.len() == b.len(),
        i <= a.len(),
        0 <= k < a.len(),
    ensures
        abs(nc_partial(a, b, i, k)) <= i * (max_abs(a) * max_abs(b)),
    decreases i,
{
    if i > 0 {
        lemma_nc_partial_bounded(a, b, (i - 1) as nat, k);
        let n = a.len() as int;
        lemma_product_bounded(a, b, i - 1, wrap_index(i - 1, k, n));
        lemma_mul_is_distributive_add_other_way(max_abs(a) * max_abs(b), (i - 1) as int, 1);
    }
}

/// Dividing by a positive divisor moves toward zero (or floors by at most one
/// step below it), so the quotient stays between `c` and `-c`.
proof fn lemma_div_in_range(c: int, q: int)
    requires
        q >= 1,
    ensures
        c >= 0 ==> 0 <= c / q <= c,
        c < 0 ==> c <= c / q < 0,
{
    lemma_fundamental_div_mod(c, q);
    lemma_mod_bound(c, q);
    let d = c / q;
    let r = c % q;
    assert(c >= 0 ==> 0 <= d <= c) by (nonlinear_arith)
        requires
            c == q * d + r,
            0 <= r < q,
            q >= 1,
    ;
    assert(c < 0 ==> c <= d < 0) by (nonlinear_arith)
        requires
            c == q * d + r,
            0 <= r < q,
            q >= 1,
    ;
}

/// `quo·t + (rem·t + q/2)/q` is `(c·t + q/2)/q`, and that lies within half
/// a unit of `c·t/q`.
proof fn lemma_scale_split(c: int, t: int, q: int)
    requires
        q > 0,
        t >= 0,
    ensures
        scale_high(c, t, q) + scale_low(c, t, q) == scale_round_spec(c, t, q),
        2 * abs(scale_round_spec(c, t, q) * q - c * t) <= q,
{
    let quo = c / q;
    let rem = c % q;
    let h = q / 2;
    lemma_fundamental_div_mod(c, q);
    assert(c * t + h == (rem * t + h) + (quo * t) * q) by (nonlinear_arith)
        requires
            c == q * quo + rem,
    ;
    lemma_hoist_over_denominator(rem * t + h, quo * t, q as nat);
    let y = c * t + h;
    let r = y / q;
    lemma_fundamental_div_mod(y, q);
    lemma_mod_bound(y, q);
    assert(r * q == y - y % q) by {
        lemma_mul_is_commutative(r, q);
    }
}

/// `n` copies of `x`.
fn vec_of_u64(x: u64, n: usize) -> (v: Vec<u64>)
    ensures
        v@ == Seq::new(n as nat, |i: int| x),
{
    let mut v: Vec<u64> = Vec::with_capacity(n);
    for i in 0..n
        invariant
            v@ == Seq::new(i as nat, |k: int| x),
    {
        v.push(x);
    }
    v
}

} // verus!
