//! Finite sums over integer ranges, and the rearrangements the ring and
//! transform proofs need.

use vstd::arithmetic::div_mod::*;
use vstd::arithmetic::mul::*;
use vstd::prelude::*;

verus! {

/// `Σ_{lo <= i < hi} f(i)`.
pub open spec fn sum(f: spec_fn(int) -> int, lo: int, hi: int) -> int
    decreases hi - lo,
{
    if lo >= hi {
        0
    } else {
        sum(f, lo, hi - 1) + f(hi - 1)
    }
}

/// Sums of functions that agree on the range are equal.
pub proof fn lemma_sum_ext(f: spec_fn(int) -> int, g: spec_fn(int) -> int, lo: int, hi: int)
    requires
        forall|i: int| lo <= i < hi ==> #[trigger] f(i) == g(i),
    ensures
        sum(f, lo, hi) == sum(g, lo, hi),
    decreases hi - lo,
{
    if lo < hi {
        lemma_sum_ext(f, g, lo, hi - 1);
    }
}

/// A sum splits at any point inside its range.
pub proof fn lemma_sum_split(f: spec_fn(int) -> int, lo: int, mid: int, hi: int)
    requires
        lo <= mid <= hi,
    ensures
        sum(f, lo, hi) == sum(f, lo, mid) + sum(f, mid, hi),
    decreases hi - mid,
{
    if mid < hi {
        lemma_sum_split(f, lo, mid, hi - 1);
    }
}

/// The sum of a pointwise sum is the sum of the sums.
pub proof fn lemma_sum_add(f: spec_fn(int) -> int, g: spec_fn(int) -> int, lo: int, hi: int)
    ensures
        sum(|i: int| f(i) + g(i), lo, hi) == sum(f, lo, hi) + sum(g, lo, hi),
    decreases hi - lo,
{
    if lo < hi {
        lemma_sum_add(f, g, lo, hi - 1);
    }
}

/// A constant factor comes out of a sum.
pub proof fn lemma_sum_scale(f: spec_fn(int) -> int, c: int, lo: int, hi: int)
    ensures
        sum(|i: int| c * f(i), lo, hi) == c * sum(f, lo, hi),
    decreases hi - lo,
{
    if lo < hi {
        lemma_sum_scale(f, c, lo, hi - 1);
        lemma_mul_is_distributive_add(c, sum(f, lo, hi - 1), f(hi - 1));
    }
}

/// Shifting the index: `Σ_{lo<=i<hi} f(i) = Σ_{lo-s<=j<hi-s} f(j+s)`.
pub proof fn lemma_sum_shift(f: spec_fn(int) -> int, s: int, lo: int, hi: int)
    ensures
        sum(f, lo, hi) == sum(|j: int| f(j + s), lo - s, hi - s),
    decreases hi - lo,
{
    if lo < hi {
        lemma_sum_shift(f, s, lo, hi - 1);
    }
}

/// Summing in reverse order: `Σ_{lo<=i<hi} f(i) = Σ_{lo<=i<hi} f(lo+hi-1-i)`.
pub proof fn lemma_sum_reverse(f: spec_fn(int) -> int, lo: int, hi: int)
    ensures
        sum(f, lo, hi) == sum(|i: int| f(lo + hi - 1 - i), lo, hi),
    decreases hi - lo,
{
    if lo < hi {
        let g = |i: int| f(lo + hi - 1 - i);
        // Σ_{lo..hi} g = g(lo) + Σ_{lo+1..hi} g, and g(lo) = f(hi-1)
        lemma_sum_split(g, lo, lo + 1, hi);
        lemma_sum_reverse(f, lo, hi - 1);
        let h = |i: int| f(lo + (hi - 1) - 1 - i);
        // Σ_{lo+1..hi} g = Σ_{lo..hi-1} h, shifting by one
        lemma_sum_shift(g, 1, lo + 1, hi);
        lemma_sum_ext(|j: int| g(j + 1), h, lo, hi - 1);
        assert(sum(g, lo, lo) == 0);
        assert(sum(g, lo, lo + 1) == g(lo));
    }
}

/// Summing pairs: `Σ_{0<=i<2c} f(i) = Σ_{0<=l<c} (f(2l) + f(2l+1))`.
pub proof fn lemma_sum_pairs(f: spec_fn(int) -> int, c: int)
    requires
        c >= 0,
    ensures
        sum(f, 0, 2 * c) == sum(|l: int| f(2 * l) + f(2 * l + 1), 0, c),
    decreases c,
{
    if c > 0 {
        lemma_sum_pairs(f, c - 1);
        assert(sum(f, 0, 2 * c) == sum(f, 0, 2 * c - 1) + f(2 * c - 1));
        assert(sum(f, 0, 2 * c - 1) == sum(f, 0, 2 * (c - 1)) + f(2 * c - 2));
    }
}

/// Exchanging the order of a double sum over `[0, m) × [lo, hi)`.
pub proof fn lemma_sum_swap(g: spec_fn(int, int) -> int, m: int, lo: int, hi: int)
    requires
        m >= 0,
    ensures
        sum(|k: int| sum(|i: int| g(i, k), 0, m), lo, hi) == sum(
            |i: int| sum(|k: int| g(i, k), lo, hi),
            0,
            m,
        ),
    decreases m,
{
    if m > 0 {
        lemma_sum_swap(g, m - 1, lo, hi);
        let lhs_m = |k: int| sum(|i: int| g(i, k), 0, m);
        let a = |k: int| sum(|i: int| g(i, k), 0, m - 1);
        let b = |k: int| g(m - 1, k);
        let ab = |k: int| a(k) + b(k);
        let ff = |i: int| sum(|k: int| g(i, k), lo, hi);
        lemma_sum_ext(lhs_m, ab, lo, hi);
        lemma_sum_add(a, b, lo, hi);
        lemma_sum_ext(|i: int| a(i) + b(i), ab, lo, hi);
        assert(sum(lhs_m, lo, hi) == sum(a, lo, hi) + sum(b, lo, hi));
        assert(sum(a, lo, hi) == sum(ff, 0, m - 1));
        assert(sum(ff, 0, m) == sum(ff, 0, m - 1) + ff(m - 1));
        lemma_sum_ext(|k: int| g(m - 1, k), b, lo, hi);
        assert(ff(m - 1) == sum(b, lo, hi));
    } else {
        lemma_sum_zero(|k: int| sum(|i: int| g(i, k), 0, m), lo, hi);
    }
}

/// A sum of zeros is zero.
pub proof fn lemma_sum_zero(f: spec_fn(int) -> int, lo: int, hi: int)
    requires
        forall|i: int| lo <= i < hi ==> #[trigger] f(i) == 0,
    ensures
        sum(f, lo, hi) == 0,
    decreases hi - lo,
{
    if lo < hi {
        lemma_sum_zero(f, lo, hi - 1);
    }
}

/// Congruent terms give congruent sums.
pub proof fn lemma_sum_cong(f: spec_fn(int) -> int, g: spec_fn(int) -> int, lo: int, hi: int, q: int)
    requires
        q > 0,
        forall|i: int| lo <= i < hi ==> #[trigger] f(i) % q == g(i) % q,
    ensures
        sum(f, lo, hi) % q == sum(g, lo, hi) % q,
    decreases hi - lo,
{
    if lo < hi {
        lemma_sum_cong(f, g, lo, hi - 1, q);
        lemma_add_mod_noop(sum(f, lo, hi - 1), f(hi - 1), q);
        lemma_add_mod_noop(sum(g, lo, hi - 1), g(hi - 1), q);
    }
}

} // verus!
