//! The algebra of `R_q` that the ring's operations keep: the negacyclic
//! product is commutative, distributes over addition, has the constant 1 as
//! identity, and agrees with the exact product once reduced.

use crate::modulus::{add_spec, center_spec};
use crate::ring::{abs, max_abs, nc_partial, nc_term, negacyclic_coeff};
use crate::sums::{
    lemma_sum_add, lemma_sum_ext, lemma_sum_reverse, lemma_sum_scale, lemma_sum_split, sum,
};
use vstd::arithmetic::div_mod::*;
use vstd::arithmetic::mul::*;
use vstd::prelude::*;

verus! {

/// Every entry lies in `[0, q)`.
pub open spec fn residues(x: Seq<int>, q: int) -> bool {
    forall|i: int| 0 <= i < x.len() ==> 0 <= #[trigger] x[i] < q
}

/// The constant polynomial 1 of length `n`.
pub open spec fn one_poly(n: nat) -> Seq<int> {
    Seq::new(n, |i: int| if i == 0 { 1int } else { 0int })
}

/// The constant polynomial `c` of length `n`.
pub open spec fn constant_poly(n: nat, c: int) -> Seq<int> {
    Seq::new(n, |i: int| if i == 0 { c } else { 0int })
}

/// The coefficient-wise sum as `Poly::add` computes it on residues.
pub open spec fn add_poly(b: Seq<int>, c: Seq<int>, q: int) -> Seq<int> {
    Seq::new(b.len(), |j: int| add_spec(b[j], c[j], q))
}

/// The centered lift as `Poly::center` computes it.
pub open spec fn center_poly(a: Seq<int>, q: int) -> Seq<int> {
    Seq::new(a.len(), |j: int| center_spec(a[j], q))
}

/// The rows of a negacyclic product as a sum.
pub proof fn lemma_nc_partial_sum(a: Seq<int>, b: Seq<int>, i: nat, k: int)
    ensures
        nc_partial(a, b, i, k) == sum(|r: int| nc_term(a, b, r, k), 0, i as int),
    decreases i,
{
    if i > 0 {
        lemma_nc_partial_sum(a, b, (i - 1) as nat, k);
    }
}

/// The negacyclic coefficient split into its two convolutions:
/// `Σ_{r<=k} a_r b_{k-r} - Σ_{k<r<n} a_r b_{k+n-r}`.
proof fn lemma_nc_split(a: Seq<int>, b: Seq<int>, k: int)
    requires
        0 <= k < a.len(),
    ensures
        negacyclic_coeff(a, b, k) == sum(|r: int| a[r] * b[k - r], 0, k + 1) - sum(
            |r: int| a[r] * b[k + a.len() - r],
            k + 1,
            a.len() as int,
        ),
{
    let n = a.len() as int;
    let f = |r: int| nc_term(a, b, r, k);
    lemma_nc_partial_sum(a, b, a.len(), k);
    lemma_sum_split(f, 0, k + 1, n);
    lemma_sum_ext(f, |r: int| a[r] * b[k - r], 0, k + 1);
    let g = |r: int| a[r] * b[k + n - r];
    lemma_sum_ext(f, |r: int| -1 * g(r), k + 1, n);
    lemma_sum_scale(g, -1, k + 1, n);
}

/// The negacyclic product is commutative.
pub proof fn lemma_nc_commutative(a: Seq<int>, b: Seq<int>, k: int)
    requires
        a.len() == b.len(),
        0 <= k < a.len(),
    ensures
        negacyclic_coeff(a, b, k) == negacyclic_coeff(b, a, k),
{
    let n = a.len() as int;
    lemma_nc_split(a, b, k);
    lemma_nc_split(b, a, k);
    // the plain convolution, read backwards
    let p = |r: int| a[r] * b[k - r];
    lemma_sum_reverse(p, 0, k + 1);
    assert forall|r: int| 0 <= r < k + 1 implies #[trigger] p(0 + (k + 1) - 1 - r) == b[r] * a[k
        - r] by {
        lemma_mul_is_commutative(a[k - r], b[r]);
    }
    lemma_sum_ext(|r: int| p(0 + (k + 1) - 1 - r), |r: int| b[r] * a[k - r], 0, k + 1);
    // the wrapped convolution, read backwards
    let w = |r: int| a[r] * b[k + n - r];
    lemma_sum_reverse(w, k + 1, n);
    assert forall|r: int| k + 1 <= r < n implies #[trigger] w((k + 1) + n - 1 - r) == b[r] * a[k
        + n - r] by {
        lemma_mul_is_commutative(a[k + n - r], b[r]);
    }
    lemma_sum_ext(|r: int| w((k + 1) + n - 1 - r), |r: int| b[r] * a[k + n - r], k + 1, n);
}

/// The negacyclic product distributes over coefficient-wise addition, over
/// the integers.
proof fn lemma_nc_distributes_int(a: Seq<int>, b: Seq<int>, c: Seq<int>, i: nat, k: int)
    requires
        a.len() == b.len(),
        a.len() == c.len(),
        i <= a.len(),
        0 <= k < a.len(),
    ensures
        nc_partial(a, Seq::new(b.len(), |j: int| b[j] + c[j]), i, k) == nc_partial(a, b, i, k)
            + nc_partial(a, c, i, k),
    decreases i,
{
    if i > 0 {
        let bc = Seq::new(b.len(), |j: int| b[j] + c[j]);
        lemma_nc_distributes_int(a, b, c, (i - 1) as nat, k);
        let r = i - 1;
        let n = a.len() as int;
        if k >= r {
            lemma_mul_is_distributive_add(a[r], b[k - r], c[k - r]);
        } else {
            lemma_mul_is_distributive_add(a[r], b[k + n - r], c[k + n - r]);
        }
    }
}

/// Congruent factors give congruent negacyclic products.
pub proof fn lemma_nc_congruent(
    a: Seq<int>,
    b: Seq<int>,
    a2: Seq<int>,
    b2: Seq<int>,
    q: int,
    i: nat,
    k: int,
)
    requires
        q > 0,
        a.len() == b.len(),
        a2.len() == a.len(),
        b2.len() == a.len(),
        i <= a.len(),
        0 <= k < a.len(),
        forall|j: int| 0 <= j < a.len() ==> #[trigger] a[j] % q == a2[j] % q,
        forall|j: int| 0 <= j < a.len() ==> #[trigger] b[j] % q == b2[j] % q,
    ensures
        nc_partial(a, b, i, k) % q == nc_partial(a2, b2, i, k) % q,
    decreases i,
{
    if i > 0 {
        let r = i - 1;
        let n = a.len() as int;
        lemma_nc_congruent(a, b, a2, b2, q, (i - 1) as nat, k);
        let j = if k >= r {
            k - r
        } else {
            k + n - r
        };
        assert(a[r] % q == a2[r] % q);
        assert(b[j] % q == b2[j] % q);
        lemma_mul_mod_noop_general(a[r], b[j], q);
        lemma_mul_mod_noop_general(a2[r], b2[j], q);
        let t = a[r] * b[j];
        let t2 = a2[r] * b2[j];
        assert(t % q == t2 % q);
        if k < r {
            lemma_sub_mod_noop(0, t, q);
            lemma_sub_mod_noop(0, t2, q);
        }
        assert(nc_term(a, b, r, k) % q == nc_term(a2, b2, r, k) % q);
        lemma_add_mod_noop(nc_partial(a, b, (i - 1) as nat, k), nc_term(a, b, r, k), q);
        lemma_add_mod_noop(nc_partial(a2, b2, (i - 1) as nat, k), nc_term(a2, b2, r, k), q);
    }
}

/// Multiplying by the constant polynomial `c` scales every coefficient by `c`.
pub proof fn lemma_nc_constant(a: Seq<int>, c: int, i: nat, k: int)
    requires
        i <= a.len(),
        0 <= k < a.len(),
    ensures
        nc_partial(a, constant_poly(a.len(), c), i, k) == (if k < i {
            a[k] * c
        } else {
            0
        }),
    decreases i,
{
    if i > 0 {
        lemma_nc_constant(a, c, (i - 1) as nat, k);
        let r = i - 1;
        let e = constant_poly(a.len(), c);
        if k >= r {
            assert(e[k - r] == (if k == r { c } else { 0int }));
            lemma_mul_basics(a[r]);
        } else {
            assert(e[k + a.len() - r] == 0);
            lemma_mul_basics(a[r]);
        }
    }
}

/// `Poly::mul_schoolbook` by a constant polynomial `c` is `Poly::scalar_mul`
/// by `c`.
pub proof fn lemma_mul_by_constant(a: Seq<int>, c: int, q: int, k: int)
    requires
        0 <= k < a.len(),
    ensures
        negacyclic_coeff(a, constant_poly(a.len(), c), k) % q == (a[k] * c) % q,
{
    lemma_nc_constant(a, c, a.len(), k);
}

/// `Poly::mul_schoolbook` by the constant polynomial 1 returns a vector of
/// residues unchanged.
pub proof fn lemma_mul_by_one(a: Seq<int>, q: int, k: int)
    requires
        q > 1,
        residues(a, q),
        0 <= k < a.len(),
    ensures
        negacyclic_coeff(a, one_poly(a.len()), k) % q == a[k],
{
    lemma_nc_constant(a, 1, a.len(), k);
    assert(one_poly(a.len()) =~= constant_poly(a.len(), 1));
    lemma_mul_basics(a[k]);
    lemma_small_mod(a[k] as nat, q as nat);
}

/// The negacyclic product modulo `q` is commutative.
pub proof fn lemma_mul_commutes(a: Seq<int>, b: Seq<int>, q: int, k: int)
    requires
        a.len() == b.len(),
        0 <= k < a.len(),
    ensures
        negacyclic_coeff(a, b, k) % q == negacyclic_coeff(b, a, k) % q,
{
    lemma_nc_commutative(a, b, k);
}

/// Multiplication distributes over addition in `R_q`: with the sum computed
/// as `Poly::add` does, `a·(b + c) = a·b + a·c`.
pub proof fn lemma_mul_distributes(a: Seq<int>, b: Seq<int>, c: Seq<int>, q: int, k: int)
    requires
        q > 1,
        a.len() == b.len(),
        a.len() == c.len(),
        residues(b, q),
        residues(c, q),
        0 <= k < a.len(),
    ensures
        negacyclic_coeff(a, add_poly(b, c, q), k) % q == add_spec(
            negacyclic_coeff(a, b, k) % q,
            negacyclic_coeff(a, c, k) % q,
            q,
        ),
{
    let n = a.len();
    let bc = Seq::new(b.len(), |j: int| b[j] + c[j]);
    let s = add_poly(b, c, q);
    assert forall|j: int| 0 <= j < n implies #[trigger] s[j] % q == bc[j] % q by {
        crate::modulus::lemma_add_once(b[j], c[j], q);
        lemma_mod_twice(b[j] + c[j], q);
    }
    assert forall|j: int| 0 <= j < n implies #[trigger] a[j] % q == a[j] % q by {}
    lemma_nc_congruent(a, s, a, bc, q, n, k);
    lemma_nc_distributes_int(a, b, c, n, k);
    let x = negacyclic_coeff(a, b, k);
    let y = negacyclic_coeff(a, c, k);
    lemma_add_mod_noop(x, y, q);
    lemma_mod_bound(x, q);
    lemma_mod_bound(y, q);
    crate::modulus::lemma_add_once(x % q, y % q, q);
    lemma_mod_twice(x % q + y % q, q);
}

/// Centering then reducing gives every residue back.
pub proof fn lemma_center_reduce(a: Seq<int>, q: int, i: int)
    requires
        q > 1,
        residues(a, q),
        0 <= i < a.len(),
    ensures
        center_poly(a, q)[i] % q == a[i],
{
    let x = a[i];
    if x > q / 2 {
        lemma_mod_add_multiples_vanish(x - q, q);
    }
    lemma_small_mod(x as nat, q as nat);
}

/// The exact product of the centered lifts, reduced, is the product in
/// `R_q`: the integer and modular multiplication paths agree about the ring.
pub proof fn lemma_exact_agrees(a: Seq<int>, b: Seq<int>, q: int, k: int)
    requires
        q > 1,
        a.len() == b.len(),
        residues(a, q),
        residues(b, q),
        0 <= k < a.len(),
    ensures
        negacyclic_coeff(center_poly(a, q), center_poly(b, q), k) % q == negacyclic_coeff(a, b, k)
            % q,
{
    let ca = center_poly(a, q);
    let cb = center_poly(b, q);
    assert forall|j: int| 0 <= j < a.len() implies #[trigger] ca[j] % q == a[j] % q by {
        lemma_center_reduce(a, q, j);
        lemma_small_mod(a[j] as nat, q as nat);
    }
    assert forall|j: int| 0 <= j < a.len() implies #[trigger] cb[j] % q == b[j] % q by {
        lemma_center_reduce(b, q, j);
        lemma_small_mod(b[j] as nat, q as nat);
    }
    lemma_nc_congruent(ca, cb, a, b, q, a.len(), k);
}

/// A bound on every entry bounds `max_abs`.
pub proof fn lemma_max_abs_le(s: Seq<int>, bound: int)
    requires
        bound >= 0,
        forall|i: int| 0 <= i < s.len() ==> #[trigger] abs(s[i]) <= bound,
    ensures
        max_abs(s) <= bound,
    decreases s.len(),
{
    if s.len() > 0 {
        let t = s.drop_last();
        assert forall|i: int| 0 <= i < t.len() implies #[trigger] abs(t[i]) <= bound by {
            assert(t[i] == s[i]);
        }
        lemma_max_abs_le(t, bound);
        assert(abs(s.last()) <= bound);
    }
}

/// The centered lift of residues lies in `(q/2 - q, q/2]`, so its largest
/// coefficient is at most `q/2` in absolute value: the small quantity that
/// noise is measured by.
pub proof fn lemma_center_bounded(a: Seq<int>, q: int)
    requires
        q > 1,
        residues(a, q),
    ensures
        forall|i: int|
            0 <= i < a.len() ==> q / 2 - q < #[trigger] center_poly(a, q)[i] <= q / 2,
        max_abs(center_poly(a, q)) <= q / 2,
{
    let c = center_poly(a, q);
    assert forall|i: int| 0 <= i < c.len() implies #[trigger] abs(c[i]) <= q / 2 by {}
    lemma_max_abs_le(c, q / 2);
}

} // verus!
