//! What the transform promises: the inverse undoes the forward transform,
//! the forward transform sees its input only modulo `q`, and residues never
//! take either transform outside `u64`.

use crate::arith::{is_prime, lemma_fermat_inverse, lemma_pow2_0, lemma_pow_congruent};
use crate::modulus::{add_spec, sub_in_range, sub_spec, MODULUS_LIMIT};
use crate::ntt::{
    brv, fwd_fits_from, fwd_from, fwd_stage, fwd_stage_fits, inv_fits_from, inv_from, inv_stage_fits, inv_stage, lemma_fwd_stage_entry, lemma_pair_index, scale,
    NttTables,
};
use crate::ring::u64s;
use vstd::arithmetic::div_mod::*;
use vstd::arithmetic::mul::*;
use vstd::arithmetic::power::*;
use vstd::arithmetic::power2::*;
use vstd::prelude::*;

verus! {

/// Every entry lies in `[0, q)`.
pub open spec fn in_range(x: Seq<int>, q: int) -> bool {
    forall|i: int| 0 <= i < x.len() ==> 0 <= #[trigger] x[i] < q
}

/// Twiddles `s` and `r` are inverse at every index in `[1, n)`.
pub open spec fn twiddles_inverse(s: Seq<u64>, r: Seq<u64>, n: int, q: int) -> bool {
    forall|j: int| 1 <= j < n ==> ((#[trigger] s[j]) * r[j]) % q == 1
}

/// An inverse stage as arithmetic modulo `q`: each pair `(y[j], y[j+t])`
/// becomes `((y[j] + y[j+t]) mod q, ((y[j] - y[j+t]) mod q)·w mod q)`.
pub open spec fn inv_stage_mod(y: Seq<int>, w: Seq<u64>, h: int, t: int, q: int) -> Seq<int> {
    Seq::new(
        y.len(),
        |idx: int|
            {
                let s = w[h + idx / (2 * t)] as int;
                if idx % (2 * t) < t {
                    (y[idx] + y[idx + t]) % q
                } else {
                    (((y[idx - t] - y[idx]) % q) * s) % q
                }
            },
    )
}

/// On residues an inverse stage is arithmetic modulo `q`.
proof fn lemma_inv_stage_residues(y: Seq<int>, w: Seq<u64>, h: int, t: int, n: int, q: int)
    requires
        q > 1,
        h >= 1,
        t >= 1,
        h * (2 * t) == n,
        y.len() == n,
        in_range(y, q),
    ensures
        inv_stage(y, w, h, t, q) =~= inv_stage_mod(y, w, h, t, q),
{
    assert forall|idx: int| 0 <= idx < n implies #[trigger] inv_stage(y, w, h, t, q)[idx]
        == inv_stage_mod(y, w, h, t, q)[idx] by {
        lemma_fundamental_div_mod(idx, 2 * t);
        lemma_mod_bound(idx, 2 * t);
        let b = idx / (2 * t);
        let o = idx % (2 * t);
        assert(idx - o + 2 * t <= n && idx - o >= 0) by (nonlinear_arith)
            requires
                idx == (2 * t) * b + o,
                0 <= o < 2 * t,
                0 <= idx < n,
                h * (2 * t) == n,
                t >= 1,
        ;
        if o < t {
            crate::modulus::lemma_add_once(y[idx], y[idx + t], q);
        } else {
            crate::modulus::lemma_sub_once(y[idx - t], y[idx], q);
        }
    }
}

/// Every entry of a scaled sequence is a residue.
proof fn lemma_scale_in_range(x: Seq<int>, c: int, q: int)
    requires
        q > 1,
    ensures
        in_range(scale(x, c, q), q),
{
    assert forall|i: int| 0 <= i < x.len() implies 0 <= #[trigger] scale(x, c, q)[i] < q by {
        lemma_mod_bound(x[i] * c, q);
    }
}

/// Inverse stage `m` after forward stage `m` doubles every entry.
proof fn lemma_stage_roundtrip(x: Seq<int>, s: Seq<u64>, r: Seq<u64>, m: int, t: int, n: int, q: int)
    requires
        q > 1,
        m >= 1,
        t >= 1,
        m * (2 * t) == n,
        x.len() == n,
        s.len() >= 2 * m,
        r.len() >= 2 * m,
        in_range(x, q),
        forall|i: int| 0 <= i < m ==> ((#[trigger] s[m + i]) * r[m + i]) % q == 1,
    ensures
        inv_stage_mod(fwd_stage(x, s, m, t, q), r, m, t, q) =~= scale(x, 2, q),
{
    let y = fwd_stage(x, s, m, t, q);
    assert forall|idx: int| 0 <= idx < n implies #[trigger] inv_stage_mod(y, r, m, t, q)[idx] == scale(
        x,
        2,
        q,
    )[idx] by {
        lemma_fundamental_div_mod(idx, 2 * t);
        lemma_mod_bound(idx, 2 * t);
        let b = idx / (2 * t);
        let o = idx % (2 * t);
        assert(b < m) by (nonlinear_arith)
            requires
                idx == (2 * t) * b + o,
                0 <= o,
                idx < m * (2 * t),
                t >= 1,
        ;
        assert(b >= 0) by (nonlinear_arith)
            requires
                idx == (2 * t) * b + o,
                o < 2 * t,
                idx >= 0,
                t >= 1,
        ;
        let w = s[m + b] as int;
        let wi = r[m + b] as int;
        assert((w * wi) % q == 1);
        assert(idx - o + 2 * t <= n && idx - o >= 0) by (nonlinear_arith)
            requires
                idx == (2 * t) * b + o,
                b < m,
                0 <= b,
                0 <= o < 2 * t,
                m * (2 * t) == n,
        ;
        if o < t {
            let j = idx + t;
            lemma_pair_index(b, o, t);
            assert(j / (2 * t) == b && j % (2 * t) == o + t);
            let p = x[idx + t] * w;
            lemma_fwd_stage_entry(x, s, m, t, q, idx);
            lemma_fwd_stage_entry(x, s, m, t, q, j);
            assert(y[idx] == (x[idx] + p) % q);
            assert(y[j] == (x[idx] - p) % q);
            lemma_add_mod_noop(x[idx] + p, x[idx] - p, q);
        } else {
            let j = idx - t;
            lemma_pair_index(b, o - t, t);
            assert(j / (2 * t) == b && j % (2 * t) == o - t);
            let p = x[idx] * w;
            lemma_fwd_stage_entry(x, s, m, t, q, idx);
            lemma_fwd_stage_entry(x, s, m, t, q, j);
            assert(y[j] == (x[j] + p) % q);
            assert(y[idx] == (x[j] - p) % q);
            lemma_sub_mod_noop(x[j] + p, x[j] - p, q);
            // ((2p mod q) · wi) mod q = (2·x·(w·wi)) mod q = 2·x mod q
            lemma_mul_mod_noop_left(2 * p, wi, q);
            assert(2 * p * wi == (x[idx] * 2) * (w * wi)) by (nonlinear_arith)
                requires
                    p == x[idx] * w,
            ;
            lemma_mul_mod_noop_right(x[idx] * 2, w * wi, q);
            lemma_mul_basics(x[idx] * 2);
        }
    }
}

/// An inverse stage commutes with scaling by a constant.
proof fn lemma_stage_linear(y: Seq<int>, r: Seq<u64>, m: int, t: int, c: int, q: int)
    requires
        q > 1,
        m >= 1,
        t >= 1,
        y.len() == m * (2 * t),
        r.len() >= 2 * m,
    ensures
        inv_stage_mod(scale(y, c, q), r, m, t, q) =~= scale(inv_stage_mod(y, r, m, t, q), c, q),
{
    let n = m * (2 * t);
    let z = scale(y, c, q);
    assert forall|idx: int| 0 <= idx < n implies #[trigger] inv_stage_mod(z, r, m, t, q)[idx] == scale(
        inv_stage_mod(y, r, m, t, q),
        c,
        q,
    )[idx] by {
        lemma_fundamental_div_mod(idx, 2 * t);
        lemma_mod_bound(idx, 2 * t);
        let b = idx / (2 * t);
        let o = idx % (2 * t);
        assert(0 <= b < m) by (nonlinear_arith)
            requires
                idx == (2 * t) * b + o,
                0 <= o < 2 * t,
                0 <= idx < m * (2 * t),
                t >= 1,
        ;
        let wi = r[m + b] as int;
        assert(idx - o + 2 * t <= n && idx - o >= 0) by (nonlinear_arith)
            requires
                idx == (2 * t) * b + o,
                b < m,
                0 <= b,
                0 <= o < 2 * t,
                n == m * (2 * t),
        ;
        if o < t {
            let j = idx + t;
            lemma_pair_index(b, o, t);
            lemma_add_mod_noop(y[idx] * c, y[j] * c, q);
            lemma_mul_mod_noop_left(y[idx] + y[j], c, q);
            assert(y[idx] * c + y[j] * c == (y[idx] + y[j]) * c) by (nonlinear_arith);
        } else {
            let j = idx - t;
            lemma_pair_index(b, o - t, t);
            let d = y[j] - y[idx];
            lemma_sub_mod_noop(y[j] * c, y[idx] * c, q);
            assert(y[j] * c - y[idx] * c == d * c) by (nonlinear_arith)
                requires
                    d == y[j] - y[idx],
            ;
            // ((d·c mod q)·wi) mod q == (((d mod q)·wi mod q)·c) mod q
            lemma_mul_mod_noop_left(d * c, wi, q);
            lemma_mul_mod_noop_left(d, wi, q);
            lemma_mul_mod_noop_left(d * wi, c, q);
            lemma_mul_mod_noop_left((d % q) * wi, c, q);
            assert((d * c) * wi == (d * wi) * c) by (nonlinear_arith);
            assert(((d % q) * wi) % q == (d * wi) % q);
        }
    }
}

/// Scaling twice is scaling by the product.
proof fn lemma_scale_scale(x: Seq<int>, a: int, b: int, q: int)
    requires
        q > 1,
    ensures
        scale(scale(x, a, q), b, q) =~= scale(x, a * b, q),
{
    assert forall|i: int| 0 <= i < x.len() implies #[trigger] scale(scale(x, a, q), b, q)[i]
        == scale(x, a * b, q)[i] by {
        lemma_mul_mod_noop_left(x[i] * a, b, q);
        lemma_mul_is_associative(x[i], a, b);
    }
}

/// Scaling reduced entries by something congruent to 1 changes nothing.
proof fn lemma_scale_unit(x: Seq<int>, c: int, q: int)
    requires
        q > 1,
        c % q == 1,
        in_range(x, q),
    ensures
        scale(x, c, q) =~= x,
{
    assert forall|i: int| 0 <= i < x.len() implies #[trigger] scale(x, c, q)[i] == x[i] by {
        lemma_mul_mod_noop_right(x[i], c, q);
        lemma_mul_basics(x[i]);
        lemma_small_mod(x[i] as nat, q as nat);
    }
}

/// On residues, a forward stage gives residues.
proof fn lemma_fwd_stage_in_range(x: Seq<int>, s: Seq<u64>, m: int, t: int, n: int, q: int)
    requires
        q > 1,
        m >= 1,
        t >= 1,
        m * (2 * t) == n,
        x.len() == n,
        in_range(x, q),
    ensures
        in_range(fwd_stage(x, s, m, t, q), q),
{
    let y = fwd_stage(x, s, m, t, q);
    assert forall|i: int| 0 <= i < y.len() implies 0 <= #[trigger] y[i] < q by {
        lemma_fundamental_div_mod(i, 2 * t);
        lemma_mod_bound(i, 2 * t);
        let b = i / (2 * t);
        let o = i % (2 * t);
        assert(i - o + 2 * t <= n && i - o >= 0) by (nonlinear_arith)
            requires
                i == (2 * t) * b + o,
                0 <= o < 2 * t,
                0 <= i < n,
                m * (2 * t) == n,
                t >= 1,
        ;
        lemma_fwd_stage_entry(x, s, m, t, q, i);
    }
}

/// The inverse stages from `m` undo the forward stages from `m`, up to the
/// factor `n/m` (one 2 per stage).
proof fn lemma_stages_roundtrip(
    x: Seq<int>,
    s: Seq<u64>,
    r: Seq<u64>,
    k: nat,
    big_l: nat,
    q: int,
)
    requires
        q > 1,
        k <= big_l,
        x.len() == pow2(big_l),
        s.len() == pow2(big_l),
        r.len() == pow2(big_l),
        in_range(x, q),
        twiddles_inverse(s, r, pow2(big_l) as int, q),
    ensures
        inv_from(fwd_from(x, s, pow2(k), pow2(big_l), q), r, pow2(k), pow2(big_l), q) =~= scale(
            x,
            pow2((big_l - k) as nat) as int,
            q,
        ),
    decreases big_l - k,
{
    let n = pow2(big_l);
    let m = pow2(k);
    lemma_pow2_pos(k);
    lemma_pow2_adds(k, (big_l - k) as nat);
    if k == big_l {
        lemma_pow2_0();
        lemma_small_mod(1, q as nat);
        lemma_scale_unit(x, 1, q);
    } else {
        let t = pow2((big_l - k - 1) as nat);
        lemma_pow2_unfold((big_l - k) as nat);
        lemma_pow2_unfold(k + 1);
        lemma_pow2_pos((big_l - k - 1) as nat);
        assert(m * (2 * t) == n);
        assert(n / (2 * m) == t) by {
            assert(n == (2 * m) * t) by (nonlinear_arith)
                requires
                    m * (2 * t) == n,
            ;
            lemma_div_multiples_vanish(t as int, (2 * m) as int);
        }
        assert(2 * m <= n) by (nonlinear_arith)
            requires
                m * (2 * t) == n,
                t >= 1,
        ;
        let y = fwd_stage(x, s, m as int, t as int, q);
        lemma_fwd_stage_in_range(x, s, m as int, t as int, n as int, q);
        lemma_stages_roundtrip(y, s, r, k + 1, big_l, q);
        assert(pow2(k + 1) == 2 * m);
        assert(fwd_from(x, s, m, n, q) == fwd_from(y, s, 2 * m, n, q));
        let z = fwd_from(y, s, 2 * m, n, q);
        let c = pow2((big_l - k - 1) as nat) as int;
        assert(inv_from(z, r, 2 * m, n, q) =~= scale(y, c, q));
        assert(inv_from(z, r, m, n, q) == inv_stage(inv_from(z, r, 2 * m, n, q), r, m as int, t as int, q));
        lemma_scale_in_range(y, c, q);
        lemma_inv_stage_residues(scale(y, c, q), r, m as int, t as int, n as int, q);
        lemma_stage_linear(y, r, m as int, t as int, c, q);
        lemma_fwd_stage_in_range(x, s, m as int, t as int, n as int, q);
        lemma_inv_stage_residues(y, r, m as int, t as int, n as int, q);
        assert forall|i: int| 0 <= i < m implies ((#[trigger] s[m + i]) * r[m + i]) % q == 1 by {
            assert(1 <= m + i < n);
        }
        lemma_stage_roundtrip(x, s, r, m as int, t as int, n as int, q);
        lemma_scale_scale(x, 2, c, q);
    }
}

/// The twiddle tables of well-formed tables are inverse entry by entry.
pub proof fn lemma_tables_twiddles_inverse(tables: NttTables)
    requires
        tables.wf(),
    ensures
        twiddles_inverse(
            tables.psi_table(),
            tables.inv_psi_table(),
            tables.spec_n() as int,
            tables.spec_q()@,
        ),
{
    let q = tables.spec_q()@;
    let n = tables.spec_n();
    let psi = tables.spec_psi();
    let psi_inv = pow(psi, (q - 2) as nat) % q;
    // ψ·ψ^(q-2) = ψ^(q-1) = (ψ^(2n))^((q-1)/(2n)) ≡ 1
    let k = ((q - 1) / (2 * n as int)) as nat;
    lemma_pow2_pos(tables.spec_log_n());
    lemma_small_mod(1, q as nat);
    assert(psi * psi_inv % q == 1) by {
        lemma_mul_mod_noop_right(psi, pow(psi, (q - 2) as nat), q);
        lemma_pow_adds(psi, 1, (q - 2) as nat);
        lemma_pow1(psi);
        lemma_fundamental_div_mod(q - 1, 2 * n as int);
        lemma_pow_multiplies(psi, 2 * n, k);
        assert((2 * n) * k == q - 1);
        lemma_pow_congruent(pow(psi, 2 * n), 1, k, q);
        lemma1_pow(k);
        lemma_small_mod(1, q as nat);
        lemma_pow_mod_noop(pow(psi, 2 * n), k, q);
    }
    assert forall|j: int| 1 <= j < n implies ((#[trigger] tables.psi_table()[j])
        * tables.inv_psi_table()[j]) % q == 1 by {
        let e = brv(j as nat, tables.spec_log_n());
        let a = pow(psi, e);
        let b = pow(psi_inv, e);
        lemma_mul_mod_noop_general(a, b, q);
        lemma_pow_distributes(psi, psi_inv, e);
        lemma_pow_congruent(psi * psi_inv, 1, e, q);
        lemma1_pow(e);
        lemma_small_mod(1, q as nat);
    }
}

/// The transform round trip: for a prime modulus, the inverse transform of
/// the forward transform of any vector of residues is that vector.
pub proof fn lemma_ntt_roundtrip(tables: NttTables, x: Seq<int>)
    requires
        tables.wf(),
        is_prime(tables.spec_q()@),
        x.len() == tables.spec_n(),
        in_range(x, tables.spec_q()@),
    ensures
        tables.inverse_spec(tables.forward_spec(x)) == x,
{
    let q = tables.spec_q()@;
    let n = tables.spec_n();
    let big_l = tables.spec_log_n();
    lemma_tables_twiddles_inverse(tables);
    lemma_pow2_0();
    lemma_stages_roundtrip(x, tables.psi_table(), tables.inv_psi_table(), 0, big_l, q);
    lemma_scale_scale(x, n as int, tables.spec_n_inverse(), q);
    // n·n^(q-2) ≡ 1: 0 < n < q
    assert(q - 1 >= 2 * n) by {
        lemma_fundamental_div_mod(q - 1, 2 * n as int);
        lemma_pow2_pos(big_l);
        let k = (q - 1) / (2 * n as int);
        assert(k >= 1) by (nonlinear_arith)
            requires
                q - 1 == (2 * n) * k + 0,
                q > 1,
                n >= 1,
        ;
        lemma_mul_inequality(1, k, 2 * n as int);
        lemma_mul_is_commutative(k, 2 * n as int);
    }
    lemma_small_mod(n, q as nat);
    lemma_fermat_inverse(n, q as nat);
    lemma_scale_unit(x, (n as int) * tables.spec_n_inverse(), q);
}

/// Two sequences of one length whose entries agree modulo `q`.
pub open spec fn congruent(x: Seq<int>, y: Seq<int>, q: int) -> bool {
    &&& x.len() == y.len()
    &&& forall|i: int| 0 <= i < x.len() ==> #[trigger] x[i] % q == y[i] % q
}

/// The butterfly sum, taken back by at most one `q`, is the sum modulo `q`.
proof fn lemma_add_spec_mod(a: int, b: int, q: int)
    requires
        q > 0,
    ensures
        add_spec(a, b, q) % q == (a + b) % q,
{
    if a + b >= q {
        lemma_mod_sub_multiples_vanish(a + b, q);
    }
}

/// The butterfly difference, lifted by at most one `q`, is the difference
/// modulo `q`.
proof fn lemma_sub_spec_mod(a: int, b: int, q: int)
    requires
        q > 0,
    ensures
        sub_spec(a, b, q) % q == (a - b) % q,
{
    if a < b {
        lemma_mod_add_multiples_vanish(a - b, q);
    }
}

/// A forward stage maps entries congruent modulo `q` to entries congruent
/// modulo `q`.
proof fn lemma_fwd_stage_cong(
    x: Seq<int>,
    y: Seq<int>,
    s: Seq<u64>,
    m: int,
    t: int,
    n: int,
    q: int,
)
    requires
        q > 1,
        m >= 1,
        t >= 1,
        m * (2 * t) == n,
        x.len() == n,
        congruent(x, y, q),
    ensures
        congruent(fwd_stage(x, s, m, t, q), fwd_stage(y, s, m, t, q), q),
{
    let fx = fwd_stage(x, s, m, t, q);
    let fy = fwd_stage(y, s, m, t, q);
    assert forall|i: int| 0 <= i < n implies #[trigger] fx[i] % q == fy[i] % q by {
        lemma_fundamental_div_mod(i, 2 * t);
        lemma_mod_bound(i, 2 * t);
        let b = i / (2 * t);
        let o = i % (2 * t);
        assert(i - o + 2 * t <= n && i - o >= 0) by (nonlinear_arith)
            requires
                i == (2 * t) * b + o,
                0 <= o < 2 * t,
                0 <= i < n,
                m * (2 * t) == n,
                t >= 1,
        ;
        let w = s[m + b] as int;
        // the same other operand, and a first operand congruent modulo q
        let (u1, u2, j) = if o < t {
            (x[i], y[i], i + t)
        } else {
            (x[i - t], y[i - t], i)
        };
        assert(u1 % q == u2 % q);
        assert((x[j] * w) % q == (y[j] * w) % q) by {
            lemma_mul_mod_noop_left(x[j], w, q);
            lemma_mul_mod_noop_left(y[j], w, q);
        }
        let v = (x[j] * w) % q;
        if o < t {
            lemma_add_spec_mod(u1, v, q);
            lemma_add_spec_mod(u2, v, q);
            lemma_add_mod_noop(u1, v, q);
            lemma_add_mod_noop(u2, v, q);
        } else {
            lemma_sub_spec_mod(u1, v, q);
            lemma_sub_spec_mod(u2, v, q);
            lemma_sub_mod_noop(u1, v, q);
            lemma_sub_mod_noop(u2, v, q);
        }
    }
}

/// The forward stages from `2^k` on map entries congruent modulo `q` to
/// entries congruent modulo `q`.
proof fn lemma_fwd_from_cong(x: Seq<int>, y: Seq<int>, s: Seq<u64>, k: nat, big_l: nat, q: int)
    requires
        q > 1,
        k <= big_l,
        x.len() == pow2(big_l),
        congruent(x, y, q),
    ensures
        congruent(
            fwd_from(x, s, pow2(k), pow2(big_l), q),
            fwd_from(y, s, pow2(k), pow2(big_l), q),
            q,
        ),
    decreases big_l - k,
{
    let n = pow2(big_l);
    let m = pow2(k);
    lemma_pow2_pos(k);
    lemma_pow2_adds(k, (big_l - k) as nat);
    if k < big_l {
        let t = pow2((big_l - k - 1) as nat);
        lemma_pow2_unfold((big_l - k) as nat);
        lemma_pow2_unfold(k + 1);
        lemma_pow2_pos((big_l - k - 1) as nat);
        assert(m * (2 * t) == n);
        assert(n / (2 * m) == t) by {
            assert(n == (2 * m) * t) by (nonlinear_arith)
                requires
                    m * (2 * t) == n,
            ;
            lemma_div_multiples_vanish(t as int, (2 * m) as int);
        }
        assert(m < n) by (nonlinear_arith)
            requires
                m * (2 * t) == n,
                t >= 1,
                m >= 1,
        ;
        let fx = fwd_stage(x, s, m as int, t as int, q);
        let fy = fwd_stage(y, s, m as int, t as int, q);
        lemma_fwd_stage_cong(x, y, s, m as int, t as int, n as int, q);
        lemma_fwd_from_cong(fx, fy, s, k + 1, big_l, q);
        assert(pow2(k + 1) == 2 * m);
        assert(fwd_from(x, s, m, n, q) == fwd_from(fx, s, 2 * m, n, q));
        assert(fwd_from(y, s, m, n, q) == fwd_from(fy, s, 2 * m, n, q));
    }
}

/// The forward transform maps entries congruent modulo `q` to entries
/// congruent modulo `q`: it depends on its input only through the residues.
pub proof fn lemma_forward_cong(tables: NttTables, x: Seq<int>, y: Seq<int>)
    requires
        tables.wf(),
        x.len() == tables.spec_n(),
        congruent(x, y, tables.spec_q()@),
    ensures
        congruent(tables.forward_spec(x), tables.forward_spec(y), tables.spec_q()@),
{
    lemma_pow2_0();
    lemma_fwd_from_cong(x, y, tables.psi_table(), 0, tables.spec_log_n(), tables.spec_q()@);
}

/// Entries that leave room to add a residue: `0 <= x[i]` and `x[i] + q <= 2^64`.
pub open spec fn room_for_residue(x: Seq<int>, q: int) -> bool {
    forall|i: int| 0 <= i < x.len() ==> 0 <= #[trigger] x[i] && x[i] + q <= u64::MAX + 1
}

/// A forward stage on entries with room for a residue runs inside `u64`, and
/// its entries keep that room.
proof fn lemma_fwd_stage_room(x: Seq<int>, s: Seq<u64>, m: int, t: int, n: int, q: int)
    requires
        1 < q < MODULUS_LIMIT,
        m >= 1,
        t >= 1,
        m * (2 * t) == n,
        x.len() == n,
        room_for_residue(x, q),
    ensures
        fwd_stage_fits(x, s, m, t, q),
        room_for_residue(fwd_stage(x, s, m, t, q), q),
{
    let y = fwd_stage(x, s, m, t, q);
    assert forall|i: int| 0 <= i < n implies 0 <= #[trigger] y[i] && y[i] + q <= u64::MAX + 1
        && (i % (2 * t) < t ==> x[i] + (x[i + t] * (s[m + i / (2 * t)] as int)) % q
        <= u64::MAX) by {
        lemma_fundamental_div_mod(i, 2 * t);
        lemma_mod_bound(i, 2 * t);
        let b = i / (2 * t);
        let o = i % (2 * t);
        assert(i - o + 2 * t <= n && i - o >= 0) by (nonlinear_arith)
            requires
                i == (2 * t) * b + o,
                0 <= o < 2 * t,
                0 <= i < n,
                m * (2 * t) == n,
                t >= 1,
        ;
        let w = s[m + b] as int;
        let j = if o < t {
            i + t
        } else {
            i
        };
        lemma_mod_bound(x[j] * w, q);
    }
    reveal(fwd_stage_fits);
}

/// Entries with room for a residue (residues among them) never take the
/// forward transform outside `u64`.
pub proof fn lemma_room_fits(tables: NttTables, x: Seq<int>)
    requires
        tables.wf(),
        x.len() == tables.spec_n(),
        room_for_residue(x, tables.spec_q()@),
    ensures
        tables.forward_fits(x),
{
    lemma_pow2_0();
    lemma_room_fits_from(x, tables.psi_table(), 0, tables.spec_log_n(), tables.spec_q()@);
}

proof fn lemma_room_fits_from(x: Seq<int>, s: Seq<u64>, k: nat, big_l: nat, q: int)
    requires
        1 < q < MODULUS_LIMIT,
        k <= big_l,
        x.len() == pow2(big_l),
        room_for_residue(x, q),
    ensures
        fwd_fits_from(x, s, pow2(k), pow2(big_l), q),
    decreases big_l - k,
{
    let n = pow2(big_l);
    let m = pow2(k);
    lemma_pow2_pos(k);
    lemma_pow2_adds(k, (big_l - k) as nat);
    if k < big_l {
        let t = pow2((big_l - k - 1) as nat);
        lemma_pow2_unfold((big_l - k) as nat);
        lemma_pow2_unfold(k + 1);
        lemma_pow2_pos((big_l - k - 1) as nat);
        assert(m * (2 * t) == n);
        assert(n / (2 * m) == t) by {
            assert(n == (2 * m) * t) by (nonlinear_arith)
                requires
                    m * (2 * t) == n,
            ;
            lemma_div_multiples_vanish(t as int, (2 * m) as int);
        }
        assert(m < n) by (nonlinear_arith)
            requires
                m * (2 * t) == n,
                t >= 1,
                m >= 1,
        ;
        lemma_fwd_stage_room(x, s, m as int, t as int, n as int, q);
        lemma_room_fits_from(fwd_stage(x, s, m as int, t as int, q), s, k + 1, big_l, q);
        assert(pow2(k + 1) == 2 * m);
    }
}

/// The inverse stages from `2^k` keep residues residues.
proof fn lemma_inv_from_in_range(y: Seq<int>, w: Seq<u64>, k: nat, big_l: nat, q: int)
    requires
        q > 1,
        k <= big_l,
        y.len() == pow2(big_l),
        in_range(y, q),
    ensures
        in_range(inv_from(y, w, pow2(k), pow2(big_l), q), q),
        inv_from(y, w, pow2(k), pow2(big_l), q).len() == y.len(),
    decreases big_l - k,
{
    let n = pow2(big_l);
    let m = pow2(k);
    lemma_pow2_pos(k);
    lemma_pow2_adds(k, (big_l - k) as nat);
    if k < big_l {
        let t = pow2((big_l - k - 1) as nat);
        lemma_pow2_unfold((big_l - k) as nat);
        lemma_pow2_unfold(k + 1);
        lemma_pow2_pos((big_l - k - 1) as nat);
        assert(m * (2 * t) == n);
        assert(n / (2 * m) == t) by {
            assert(n == (2 * m) * t) by (nonlinear_arith)
                requires
                    m * (2 * t) == n,
            ;
            lemma_div_multiples_vanish(t as int, (2 * m) as int);
        }
        assert(m < n) by (nonlinear_arith)
            requires
                m * (2 * t) == n,
                t >= 1,
                m >= 1,
        ;
        lemma_inv_from_in_range(y, w, k + 1, big_l, q);
        assert(pow2(k + 1) == 2 * m);
        let z = inv_from(y, w, 2 * m, n, q);
        lemma_inv_stage_residues(z, w, m as int, t as int, n as int, q);
        let u = inv_stage_mod(z, w, m as int, t as int, q);
        assert forall|i: int| 0 <= i < n implies 0 <= #[trigger] u[i] < q by {
            lemma_fundamental_div_mod(i, 2 * t as int);
            lemma_mod_bound(i, 2 * t as int);
            if i % (2 * t as int) < t {
                lemma_mod_bound(z[i] + z[i + t], q);
            } else {
                let s = w[m + i / (2 * t as int)] as int;
                lemma_mod_bound(((z[i - t] - z[i]) % q) * s, q);
            }
        }
    }
}

/// Residues (the entry-wise products among them) never take the inverse
/// transform outside `u64`.
pub proof fn lemma_residues_inverse_fits(tables: NttTables, y: Seq<int>)
    requires
        tables.wf(),
        y.len() == tables.spec_n(),
        in_range(y, tables.spec_q()@),
    ensures
        tables.inverse_fits(y),
{
    lemma_pow2_0();
    lemma_inv_fits_from_residues(y, tables.inv_psi_table(), 0, tables.spec_log_n(), tables.spec_q()@);
}

proof fn lemma_inv_fits_from_residues(y: Seq<int>, w: Seq<u64>, k: nat, big_l: nat, q: int)
    requires
        1 < q < MODULUS_LIMIT,
        k <= big_l,
        y.len() == pow2(big_l),
        in_range(y, q),
    ensures
        inv_fits_from(y, w, pow2(k), pow2(big_l), q),
    decreases big_l - k,
{
    let n = pow2(big_l);
    let m = pow2(k);
    lemma_pow2_pos(k);
    lemma_pow2_adds(k, (big_l - k) as nat);
    if k < big_l {
        let t = pow2((big_l - k - 1) as nat);
        lemma_pow2_unfold((big_l - k) as nat);
        lemma_pow2_unfold(k + 1);
        lemma_pow2_pos((big_l - k - 1) as nat);
        assert(m * (2 * t) == n);
        assert(n / (2 * m) == t) by {
            assert(n == (2 * m) * t) by (nonlinear_arith)
                requires
                    m * (2 * t) == n,
            ;
            lemma_div_multiples_vanish(t as int, (2 * m) as int);
        }
        assert(m < n) by (nonlinear_arith)
            requires
                m * (2 * t) == n,
                t >= 1,
                m >= 1,
        ;
        lemma_inv_fits_from_residues(y, w, k + 1, big_l, q);
        lemma_inv_from_in_range(y, w, k + 1, big_l, q);
        assert(pow2(k + 1) == 2 * m);
        let z = inv_from(y, w, 2 * m, n, q);
        assert(inv_stage_fits(z, w, m as int, t as int, q)) by {
            reveal(inv_stage_fits);
            assert forall|idx: int| 0 <= idx < z.len() && idx % (2 * t as int) < t implies #[trigger] z[idx]
                + z[idx + t] <= u64::MAX && sub_in_range(z[idx], z[idx + t], q) by {
                lemma_fundamental_div_mod(idx, 2 * t as int);
                let b = idx / (2 * t as int);
                let o = idx % (2 * t as int);
                assert(idx + t < n) by (nonlinear_arith)
                    requires
                        idx == (2 * t) * b + o,
                        0 <= o < t,
                        0 <= idx < n,
                        m * (2 * t) == n,
                        t >= 1,
                ;
            }
        }
    }
}

/// An inverse stage maps entries congruent modulo `q` to entries congruent
/// modulo `q`.
proof fn lemma_inv_stage_cong(
    y: Seq<int>,
    z: Seq<int>,
    w: Seq<u64>,
    h: int,
    t: int,
    n: int,
    q: int,
)
    requires
        q > 1,
        h >= 1,
        t >= 1,
        h * (2 * t) == n,
        y.len() == n,
        congruent(y, z, q),
    ensures
        congruent(inv_stage(y, w, h, t, q), inv_stage(z, w, h, t, q), q),
{
    let iy = inv_stage(y, w, h, t, q);
    let iz = inv_stage(z, w, h, t, q);
    assert forall|i: int| 0 <= i < n implies #[trigger] iy[i] % q == iz[i] % q by {
        lemma_fundamental_div_mod(i, 2 * t);
        lemma_mod_bound(i, 2 * t);
        let b = i / (2 * t);
        let o = i % (2 * t);
        assert(i - o + 2 * t <= n && i - o >= 0) by (nonlinear_arith)
            requires
                i == (2 * t) * b + o,
                0 <= o < 2 * t,
                0 <= i < n,
                h * (2 * t) == n,
                t >= 1,
        ;
        let (lo, hi) = if o < t {
            (i, i + t)
        } else {
            (i - t, i)
        };
        assert(y[lo] % q == z[lo] % q && y[hi] % q == z[hi] % q);
        if o < t {
            lemma_add_spec_mod(y[lo], y[hi], q);
            lemma_add_spec_mod(z[lo], z[hi], q);
            lemma_add_mod_noop(y[lo], y[hi], q);
            lemma_add_mod_noop(z[lo], z[hi], q);
        } else {
            let s = w[h + b] as int;
            let dy = sub_spec(y[lo], y[hi], q);
            let dz = sub_spec(z[lo], z[hi], q);
            lemma_sub_spec_mod(y[lo], y[hi], q);
            lemma_sub_spec_mod(z[lo], z[hi], q);
            lemma_sub_mod_noop(y[lo], y[hi], q);
            lemma_sub_mod_noop(z[lo], z[hi], q);
            assert(dy % q == dz % q);
            lemma_mul_mod_noop_left(dy, s, q);
            lemma_mul_mod_noop_left(dz, s, q);
            lemma_mod_twice(dy * s, q);
            lemma_mod_twice(dz * s, q);
        }
    }
}

/// The inverse stages from `2^k` map entries congruent modulo `q` to entries
/// congruent modulo `q`.
proof fn lemma_inv_from_cong(y: Seq<int>, z: Seq<int>, w: Seq<u64>, k: nat, big_l: nat, q: int)
    requires
        q > 1,
        k <= big_l,
        y.len() == pow2(big_l),
        congruent(y, z, q),
    ensures
        congruent(
            inv_from(y, w, pow2(k), pow2(big_l), q),
            inv_from(z, w, pow2(k), pow2(big_l), q),
            q,
        ),
    decreases big_l - k,
{
    let n = pow2(big_l);
    let m = pow2(k);
    lemma_pow2_pos(k);
    lemma_pow2_adds(k, (big_l - k) as nat);
    if k < big_l {
        let t = pow2((big_l - k - 1) as nat);
        lemma_pow2_unfold((big_l - k) as nat);
        lemma_pow2_unfold(k + 1);
        lemma_pow2_pos((big_l - k - 1) as nat);
        assert(m * (2 * t) == n);
        assert(n / (2 * m) == t) by {
            assert(n == (2 * m) * t) by (nonlinear_arith)
                requires
                    m * (2 * t) == n,
            ;
            lemma_div_multiples_vanish(t as int, (2 * m) as int);
        }
        assert(m < n) by (nonlinear_arith)
            requires
                m * (2 * t) == n,
                t >= 1,
                m >= 1,
        ;
        lemma_inv_from_cong(y, z, w, k + 1, big_l, q);
        assert(pow2(k + 1) == 2 * m);
        let iy = inv_from(y, w, 2 * m, n, q);
        let iz = inv_from(z, w, 2 * m, n, q);
        lemma_inv_from_len(y, w, 2 * m, n, q);
        lemma_inv_stage_cong(iy, iz, w, m as int, t as int, n as int, q);
    }
}

/// The inverse stages keep the length.
proof fn lemma_inv_from_len(y: Seq<int>, w: Seq<u64>, m: nat, n: nat, q: int)
    ensures
        inv_from(y, w, m, n, q).len() == y.len(),
    decreases (if m < n {
        n - m
    } else {
        0
    }),
{
    if m != 0 && m < n {
        lemma_inv_from_len(y, w, 2 * m, n, q);
    }
}

/// The round trip on any input: for a prime modulus, the inverse transform
/// of the forward transform gives every entry back modulo `q`.
pub proof fn lemma_ntt_roundtrip_mod(tables: NttTables, x: Seq<int>)
    requires
        tables.wf(),
        is_prime(tables.spec_q()@),
        x.len() == tables.spec_n(),
    ensures
        tables.inverse_spec(tables.forward_spec(x)) == Seq::new(
            x.len(),
            |i: int| x[i] % tables.spec_q()@,
        ),
{
    let q = tables.spec_q()@;
    let n = tables.spec_n();
    let xr = Seq::new(x.len(), |i: int| x[i] % q);
    assert(in_range(xr, q)) by {
        assert forall|i: int| 0 <= i < xr.len() implies 0 <= #[trigger] xr[i] < q by {
            lemma_mod_bound(x[i], q);
        }
    }
    assert(congruent(x, xr, q)) by {
        assert forall|i: int| 0 <= i < x.len() implies #[trigger] x[i] % q == xr[i] % q by {
            lemma_mod_twice(x[i], q);
        }
    }
    lemma_ntt_roundtrip(tables, xr);
    lemma_forward_cong(tables, x, xr);
    let fx = tables.forward_spec(x);
    let fr = tables.forward_spec(xr);
    lemma_forward_len(tables, x);
    lemma_pow2_0();
    lemma_inv_from_cong(fx, fr, tables.inv_psi_table(), 0, tables.spec_log_n(), q);
    let ix = inv_from(fx, tables.inv_psi_table(), 1, n, q);
    let ir = inv_from(fr, tables.inv_psi_table(), 1, n, q);
    let c = tables.spec_n_inverse();
    assert(scale(ix, c, q) =~= scale(ir, c, q)) by {
        assert forall|i: int| 0 <= i < ix.len() implies #[trigger] scale(ix, c, q)[i] == scale(
            ir,
            c,
            q,
        )[i] by {
            lemma_mul_mod_noop_left(ix[i], c, q);
            lemma_mul_mod_noop_left(ir[i], c, q);
        }
    }
}

/// The forward stages keep the length.
proof fn lemma_fwd_from_len(x: Seq<int>, s: Seq<u64>, m: nat, n: nat, q: int)
    ensures
        fwd_from(x, s, m, n, q).len() == x.len(),
    decreases (if m < n {
        n - m
    } else {
        0
    }),
{
    if m != 0 && m < n {
        lemma_fwd_from_len(fwd_stage(x, s, m as int, (n / (2 * m)) as int, q), s, 2 * m, n, q);
    }
}

/// The forward transform keeps the length.
pub proof fn lemma_forward_len(tables: NttTables, x: Seq<int>)
    ensures
        tables.forward_spec(x).len() == x.len(),
{
    lemma_fwd_from_len(x, tables.psi_table(), 1, tables.spec_n(), tables.spec_q()@);
}

} // verus!
