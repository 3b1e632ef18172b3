//! Why the transform multiplies: the forward transform evaluates a
//! polynomial at the `N` roots of `X^N + 1`, and evaluation turns the
//! negacyclic product into an entry-wise product.

use crate::arith::{is_prime, lemma_pow2_0, lemma_pow_congruent, lemma_sqrt_one};
use crate::ntt_laws::lemma_forward_cong;
use crate::ntt::{
    brv, fwd_from, fwd_stage, lemma_brv_extend, lemma_fwd_stage_entry, pointwise, NttTables,
};
use crate::ring::{nc_term, negacyclic_coeff};
use crate::ring_laws::lemma_nc_partial_sum;
use crate::sums::{
    lemma_sum_add, lemma_sum_cong, lemma_sum_ext, lemma_sum_pairs, lemma_sum_scale,
    lemma_sum_shift, lemma_sum_split, lemma_sum_swap, sum,
};
use vstd::arithmetic::div_mod::*;
use vstd::arithmetic::mul::*;
use vstd::arithmetic::power::*;
use vstd::arithmetic::power2::*;
use vstd::prelude::*;

verus! {

/// `Σ_{l < c} x[j + l·d]·z^l`: the entries of `x` at stride `d` from `j`,
/// weighted by powers of `z`. With `c·d = n` this is coefficient `j` of `x`
/// reduced modulo `X^d - z`.
pub open spec fn red(x: Seq<int>, d: int, z: int, j: int, c: int) -> int {
    sum(|l: int| x[j + l * d] * pow(z, l as nat), 0, c)
}

/// `x(z) = Σ_{l < n} x[l]·z^l`.
pub open spec fn eval(x: Seq<int>, z: int) -> int {
    sum(|l: int| x[l] * pow(z, l as nat), 0, x.len() as int)
}

/// The point of block `i` at level `m` (the `m` blocks before stage `m`):
/// block `i` holds the reduction modulo `X^(n/m) - zeta`. The single block
/// before any stage is taken modulo `X^n + 1`; each stage splits block `i/2`
/// with twiddle `w` into `+w` (even `i`) and `-w` (odd `i`).
pub open spec fn zeta(s: Seq<u64>, m: int, i: int, q: int) -> int {
    if m <= 1 {
        q - 1
    } else {
        let w = s[m / 2 + i / 2] as int;
        if i % 2 == 0 {
            w
        } else {
            (q - w) % q
        }
    }
}

/// Before stage `m`, entry `idx` (block `idx / d`, offset `idx % d`, with
/// `d = n/m`) is coefficient `idx % d` of `x` reduced modulo
/// `X^d - zeta(m, block)`, modulo `q`.
pub open spec fn blocks_reduced(arr: Seq<int>, x: Seq<int>, s: Seq<u64>, m: int, n: int, q: int) -> bool {
    &&& arr.len() == n
    &&& forall|idx: int|
        0 <= idx < n ==> #[trigger] arr[idx] == red(x, n / m, zeta(s, m, idx / (n / m), q), idx % (n / m), m) % q
}

/// `z^(2l) = (z²)^l` and `z^(2l+1) = z·(z²)^l`.
proof fn lemma_pow_even_odd(z: int, l: nat)
    ensures
        pow(z, 2 * l) == pow(z * z, l),
        pow(z, 2 * l + 1) == z * pow(z * z, l),
{
    lemma_pow_multiplies(z, 2, l);
    lemma_square_is_pow2(z);
    lemma_pow_adds(z, 1, 2 * l);
    lemma_pow1(z);
}

/// Folding: reducing modulo `X^t - w` is reducing modulo `X^(2t) - w²` and
/// then folding the upper half in with weight `w`.
pub proof fn lemma_fold(x: Seq<int>, t: int, w: int, j: int, c: int)
    requires
        c >= 0,
    ensures
        red(x, t, w, j, 2 * c) == red(x, 2 * t, w * w, j, c) + w * red(x, 2 * t, w * w, j + t, c),
{
    let f = |l: int| x[j + l * t] * pow(w, l as nat);
    let lo = |l: int| x[j + l * (2 * t)] * pow(w * w, l as nat);
    let hi = |l: int| x[(j + t) + l * (2 * t)] * pow(w * w, l as nat);
    lemma_sum_pairs(f, c);
    assert forall|l: int| 0 <= l < c implies #[trigger] (f(2 * l) + f(2 * l + 1)) == lo(l) + w
        * hi(l) by {
        lemma_pow_even_odd(w, l as nat);
        assert(j + (2 * l) * t == j + l * (2 * t)) by (nonlinear_arith);
        assert(j + (2 * l + 1) * t == (j + t) + l * (2 * t)) by (nonlinear_arith);
        assert((2 * l) as nat == 2 * (l as nat));
        assert((2 * l + 1) as nat == 2 * (l as nat) + 1);
        let p = pow(w * w, l as nat);
        let xh = x[(j + t) + l * (2 * t)];
        assert(xh * (w * p) == w * (xh * p)) by (nonlinear_arith);
    }
    lemma_sum_ext(|l: int| f(2 * l) + f(2 * l + 1), |l: int| lo(l) + w * hi(l), 0, c);
    lemma_sum_add(lo, |l: int| w * hi(l), 0, c);
    lemma_sum_scale(hi, w, 0, c);
    lemma_sum_ext(|l: int| lo(l) + (|l: int| w * hi(l))(l), |l: int| lo(l) + w * hi(l), 0, c);
}

/// Congruent points give congruent reductions.
pub proof fn lemma_red_cong(x: Seq<int>, d: int, z1: int, z2: int, j: int, c: int, q: int)
    requires
        q > 0,
        z1 % q == z2 % q,
    ensures
        red(x, d, z1, j, c) % q == red(x, d, z2, j, c) % q,
{
    let f = |l: int| x[j + l * d] * pow(z1, l as nat);
    let g = |l: int| x[j + l * d] * pow(z2, l as nat);
    assert forall|l: int| 0 <= l < c implies #[trigger] f(l) % q == g(l) % q by {
        lemma_pow_congruent(z1, z2, l as nat, q);
        lemma_mul_mod_noop_right(x[j + l * d], pow(z1, l as nat), q);
        lemma_mul_mod_noop_right(x[j + l * d], pow(z2, l as nat), q);
    }
    lemma_sum_cong(f, g, 0, c, q);
}

/// `a·(q-1) ≡ -a (mod q)`.
pub proof fn lemma_times_minus_one(a: int, q: int)
    requires
        q > 0,
    ensures
        (a * (q - 1)) % q == (-a) % q,
{
    assert(a * (q - 1) == q * a + (-a)) by (nonlinear_arith);
    lemma_mod_multiples_vanish(a, -a, q);
}

/// For a prime `q`, the root `ψ` of the tables satisfies `ψ^N ≡ -1`.
pub proof fn lemma_psi_half_order(tables: NttTables)
    requires
        tables.wf(),
        is_prime(tables.spec_q()@),
    ensures
        pow(tables.spec_psi(), tables.spec_n()) % tables.spec_q()@ == tables.spec_q()@ - 1,
{
    let q = tables.spec_q()@;
    let n = tables.spec_n();
    let psi = tables.spec_psi();
    lemma_pow2_pos(tables.spec_log_n());
    // 2 is prime and divides 2N, so ψ^N ≢ 1
    assert(is_prime(2));
    assert(((2 * n) as int) % 2 == 0);
    assert((2 * n) as int / 2 == n);
    assert(pow(psi, n) % q != 1);
    let y = pow(psi, n) % q;
    lemma_mod_bound(pow(psi, n), q);
    lemma_pow_adds(psi, n, n);
    lemma_mul_mod_noop_general(pow(psi, n), pow(psi, n), q);
    assert(n + n == 2 * n);
    lemma_sqrt_one(y, q);
}

/// Bit reversal of a block index: `2·brv(m+i) = brv(m/2 + i/2) + (i mod 2)·2^L`
/// for `m = 2^k`, `1 <= k < L`, `i < m`.
proof fn lemma_brv_twiddle(m: nat, i: nat, k: nat, big_l: nat)
    requires
        1 <= k < big_l,
        m == pow2(k),
        i < m,
    ensures
        2 * brv(m + i, big_l) == brv(m / 2 + i / 2, big_l) + (i % 2) * pow2(big_l),
{
    let b = (big_l - 1) as nat;
    lemma_pow2_unfold(k);
    lemma_pow2_unfold(big_l);
    let y = (m / 2 + i / 2) as nat;
    assert((m + i) % 2 == i % 2);
    assert((m + i) / 2 == y);
    assert(brv(m + i, big_l) == ((m + i) % 2) * pow2(b) + brv((m + i) / 2, b));
    // y < 2^(k) <= 2^(L-1)
    if k < b {
        lemma_pow2_strictly_increases(k, b);
    }
    lemma_brv_extend(y, b);
    assert((i % 2) * pow2(big_l) == 2 * ((i % 2) * pow2(b))) by (nonlinear_arith)
        requires
            pow2(big_l) == 2 * pow2(b),
    ;
}

/// `brv(1, L) = 2^(L-1)`.
proof fn lemma_brv_one(big_l: nat)
    requires
        big_l >= 1,
    ensures
        brv(1, big_l) == pow2((big_l - 1) as nat),
{
    lemma_brv_zero((big_l - 1) as nat);
    assert(brv(1, big_l) == (1nat % 2) * pow2((big_l - 1) as nat) + brv(0, (big_l - 1) as nat));
}

/// `brv(0, b) = 0`.
proof fn lemma_brv_zero(b: nat)
    ensures
        brv(0, b) == 0,
    decreases b,
{
    if b > 0 {
        lemma_brv_zero((b - 1) as nat);
        assert(brv(0, b) == (0nat % 2) * pow2((b - 1) as nat) + brv(0nat / 2, (b - 1) as nat));
        lemma_mul_basics(pow2((b - 1) as nat) as int);
    }
}

/// Squaring a twiddle gives the point of its block: `S[m+i]² ≡ zeta(m, i)`.
pub proof fn lemma_twiddle_square(tables: NttTables, k: nat, i: int)
    requires
        tables.wf(),
        is_prime(tables.spec_q()@),
        k < tables.spec_log_n(),
        0 <= i < pow2(k),
    ensures
        ({
            let s = tables.psi_table();
            let m = pow2(k) as int;
            let q = tables.spec_q()@;
            (s[m + i] * s[m + i]) % q == zeta(s, m, i, q)
        }),
{
    let s = tables.psi_table();
    let q = tables.spec_q()@;
    let n = tables.spec_n();
    let big_l = tables.spec_log_n();
    let psi = tables.spec_psi();
    let m = pow2(k);
    if k > 0 {
        lemma_pow2_strictly_increases(k, big_l);
    }
    lemma_pow2_pos(k);
    lemma_pow2_strictly_increases(k, big_l);
    lemma_pow2_unfold(big_l);
    assert(m + i < n) by {
        if k + 1 < big_l {
            lemma_pow2_strictly_increases(k + 1, big_l);
        }
        lemma_pow2_unfold(k + 1);
    }
    let e = brv((m + i) as nat, big_l);
    assert(s[m + i] == pow(psi, e) % q);
    lemma_mul_mod_noop_general(pow(psi, e), pow(psi, e), q);
    lemma_pow_adds(psi, e, e);
    lemma_psi_half_order(tables);
    if k == 0 {
        lemma_pow2_0();
        lemma_brv_one(big_l);
        assert(e + e == n);
    } else {
        lemma_brv_twiddle(m, i as nat, k, big_l);
        let y = (m / 2 + i / 2) as nat;
        let e2 = brv(y, big_l);
        assert(y < n);
        assert(s[y as int] == pow(psi, e2) % q);
        lemma_pow2_unfold(k);
        assert(m / 2 + i / 2 == y);
        if i % 2 == 0 {
            assert((i % 2) * pow2(big_l) == 0);
            assert(e + e == e2);
            lemma_mod_twice(pow(psi, e2), q);
        } else {
            assert(i % 2 == 1);
            assert((i % 2) * pow2(big_l) == pow2(big_l));
            assert(e + e == e2 + n);
            lemma_pow_adds(psi, e2, n);
            lemma_mul_mod_noop_general(pow(psi, e2), pow(psi, n), q);
            let v = pow(psi, e2) % q;
            lemma_times_minus_one(v, q);
            lemma_mod_bound(pow(psi, e2), q);
            // (q - v) % q == (-v) % q
            lemma_mod_add_multiples_vanish(-v, q);
        }
    }
}

/// Every point lies in `[0, q)` when the twiddles do.
proof fn lemma_zeta_range(s: Seq<u64>, m: int, i: int, q: int)
    requires
        q > 1,
        m <= 1 || (0 <= m / 2 + i / 2 < s.len() && s[m / 2 + i / 2] < q),
    ensures
        0 <= zeta(s, m, i, q) < q,
{
    if m > 1 {
        let w = s[m / 2 + i / 2] as int;
        lemma_mod_bound(q - w, q);
    }
}

/// The position of entry `idx` at level `2m` (block `i'`, offset `j'` with
/// blocks of length `t`) seen at level `m` (blocks of length `2t`).
proof fn lemma_child_index(idx: int, t: int)
    requires
        idx >= 0,
        t >= 1,
    ensures
        idx / (2 * t) == (idx / t) / 2,
        idx % (2 * t) == t * ((idx / t) % 2) + idx % t,
        (idx / t) % 2 == 0 ==> (idx + t) / (2 * t) == (idx / t) / 2 && (idx + t) % (2 * t) == idx
            % t + t,
        (idx / t) % 2 == 1 ==> (idx - t) / (2 * t) == (idx / t) / 2 && (idx - t) % (2 * t) == idx
            % t,
{
    lemma_fundamental_div_mod(idx, t);
    lemma_mod_bound(idx, t);
    let ip = idx / t;
    let jp = idx % t;
    lemma_fundamental_div_mod(ip, 2);
    lemma_mod_bound(ip, 2);
    let i = ip / 2;
    let b = ip % 2;
    assert(ip >= 0) by {
        lemma_div_pos_is_pos(idx, t);
    }
    assert(idx == (2 * t) * i + (t * b + jp)) by (nonlinear_arith)
        requires
            idx == t * ip + jp,
            ip == 2 * i + b,
    ;
    assert(0 <= t * b + jp < 2 * t) by (nonlinear_arith)
        requires
            0 <= b < 2,
            0 <= jp < t,
    ;
    lemma_fundamental_div_mod_converse(idx, 2 * t, i, t * b + jp);
    if b == 0 {
        assert(idx + t == (2 * t) * i + (jp + t)) by (nonlinear_arith)
            requires
                idx == (2 * t) * i + (t * b + jp),
                b == 0,
        ;
        lemma_fundamental_div_mod_converse(idx + t, 2 * t, i, jp + t);
    } else {
        assert(idx - t == (2 * t) * i + jp) by (nonlinear_arith)
            requires
                idx == (2 * t) * i + (t * b + jp),
                b == 1,
        ;
        lemma_fundamental_div_mod_converse(idx - t, 2 * t, i, jp);
    }
}

/// `((A mod q) + (B mod q)·w) mod q = (A' + w·B') mod q` for `A ≡ A'`, `B ≡ B'`.
proof fn lemma_combine(a: int, b: int, a2: int, b2: int, w: int, q: int)
    requires
        q > 0,
        a % q == a2 % q,
        b % q == b2 % q,
    ensures
        ((a % q) + (b % q) * w) % q == (a2 + w * b2) % q,
        ((a % q) - (b % q) * w) % q == (a2 + (-w) * b2) % q,
{
    lemma_mul_mod_noop_left(b, w, q);
    lemma_mul_mod_noop_left(b2, w, q);
    lemma_add_mod_noop(a % q, (b % q) * w, q);
    lemma_mod_twice(a, q);
    lemma_add_mod_noop(a2, w * b2, q);
    lemma_mul_is_commutative(w, b2);
    lemma_mod_twice((b % q) * w, q);
    lemma_sub_mod_noop(a % q, (b % q) * w, q);
    lemma_sub_mod_noop(a2, b2 * w, q);
    assert(a2 + (-w) * b2 == a2 - b2 * w) by (nonlinear_arith);
}

/// One forward stage splits every block of level `m` into its two children
/// at level `2m`, each reduced modulo its own point.
pub proof fn lemma_stage_splits(
    arr: Seq<int>,
    x: Seq<int>,
    s: Seq<u64>,
    m: int,
    t: int,
    n: int,
    q: int,
)
    requires
        q > 1,
        m >= 1,
        t >= 1,
        m * (2 * t) == n,
        s.len() >= 2 * m,
        forall|j: int| 0 <= j < s.len() ==> #[trigger] s[j] < q,
        forall|i: int|
            0 <= i < m ==> (#[trigger] s[m + i] * s[m + i]) % q == zeta(s, m, i, q),
        m <= 1 || forall|i: int| 0 <= i < m ==> 0 <= #[trigger] zeta(s, m, i, q) < q,
        blocks_reduced(arr, x, s, m, n, q),
    ensures
        blocks_reduced(fwd_stage(arr, s, m, t, q), x, s, 2 * m, n, q),
{
    let y = fwd_stage(arr, s, m, t, q);
    assert(n / m == 2 * t) by {
        lemma_div_multiples_vanish(2 * t, m);
        lemma_mul_is_commutative(m, 2 * t);
    }
    assert(n / (2 * m) == t) by {
        assert(n == (2 * m) * t) by (nonlinear_arith)
            requires
                m * (2 * t) == n,
        ;
        lemma_div_multiples_vanish(t, 2 * m);
    }
    assert forall|idx: int| 0 <= idx < n implies #[trigger] y[idx] == red(
        x,
        n / (2 * m),
        zeta(s, 2 * m, idx / (n / (2 * m)), q),
        idx % (n / (2 * m)),
        2 * m,
    ) % q by {
        lemma_child_index(idx, t);
        let ip = idx / t;
        let jp = idx % t;
        let i = ip / 2;
        lemma_fundamental_div_mod(idx, t);
        lemma_mod_bound(idx, t);
        lemma_div_pos_is_pos(idx, t);
        assert(ip < 2 * m) by (nonlinear_arith)
            requires
                idx == t * ip + jp,
                0 <= jp,
                idx < n,
                n == m * (2 * t),
                t >= 1,
        ;
        assert(0 <= i < m);
        let w = s[m + i] as int;
        let zp = zeta(s, m, i, q);
        assert(2 * m > 1);
        assert((2 * m) / 2 + ip / 2 == m + i);
        let r0 = red(x, 2 * t, zp, jp, m);
        let r1 = red(x, 2 * t, zp, jp + t, m);
        let b = ip % 2;
        assert(t * b == (if b == 0 { 0 } else { t })) by (nonlinear_arith)
            requires
                0 <= b < 2,
        ;
        lemma_fundamental_div_mod(idx, 2 * t);
        assert(idx == (2 * t) * i + (t * b + jp));
        assert((2 * t) * i + 2 * t <= n) by (nonlinear_arith)
            requires
                0 <= i < m,
                n == m * (2 * t),
                t >= 1,
        ;
        lemma_mod_bound(w * w, q);
        if m > 1 {
            assert(0 <= zp < q);
        }
        assert((w * w) % q == zp);
        lemma_small_mod(zp as nat, q as nat);
        lemma_red_cong(x, 2 * t, zp, w * w, jp, m, q);
        lemma_red_cong(x, 2 * t, zp, w * w, jp + t, m, q);
        if ip % 2 == 0 {
            assert(idx % (2 * t) < t);
            assert(idx / (2 * t) == i);
            assert(arr[idx] == r0 % q);
            assert(arr[idx + t] == r1 % q);
            lemma_fwd_stage_entry(arr, s, m, t, q, idx);
            assert(y[idx] == (arr[idx] + arr[idx + t] * w) % q);
            lemma_combine(r0, r1, red(x, 2 * t, w * w, jp, m), red(x, 2 * t, w * w, jp + t, m), w, q);
            lemma_fold(x, t, w, jp, m);
            assert(zeta(s, 2 * m, ip, q) == w);
        } else {
            assert(idx % (2 * t) >= t);
            assert(arr[idx - t] == r0 % q);
            assert(arr[idx] == r1 % q);
            lemma_fwd_stage_entry(arr, s, m, t, q, idx);
            assert(y[idx] == (arr[idx - t] - arr[idx] * w) % q);
            assert((-w) * (-w) == w * w) by (nonlinear_arith);
            lemma_combine(r0, r1, red(x, 2 * t, w * w, jp, m), red(x, 2 * t, w * w, jp + t, m), w, q);
            lemma_fold(x, t, -w, jp, m);
            assert(zeta(s, 2 * m, ip, q) == (q - w) % q);
            lemma_mod_add_multiples_vanish(-w, q);
            lemma_mod_twice(q - w, q);
            assert((-w) % q == ((q - w) % q) % q);
            lemma_red_cong(x, t, -w, (q - w) % q, jp, 2 * m, q);
        }
    }
}

/// The twiddle table of well-formed tables holds residues.
proof fn lemma_table_residues(tables: NttTables)
    requires
        tables.wf(),
    ensures
        forall|j: int| 0 <= j < tables.psi_table().len() ==> #[trigger] tables.psi_table()[j] < tables.spec_q()@,
{
    let q = tables.spec_q()@;
    assert forall|j: int| 0 <= j < tables.psi_table().len() implies #[trigger] tables.psi_table()[j]
        < q by {
        lemma_mod_bound(pow(tables.spec_psi(), brv(j as nat, tables.spec_log_n())), q);
    }
}

/// The forward stages from level `2^k` on carry blocks reduced at level
/// `2^k` to single entries, each the value at the point of its block.
proof fn lemma_stages_evaluate(tables: NttTables, arr: Seq<int>, x: Seq<int>, k: nat)
    requires
        tables.wf(),
        is_prime(tables.spec_q()@),
        k <= tables.spec_log_n(),
        blocks_reduced(
            arr,
            x,
            tables.psi_table(),
            pow2(k) as int,
            tables.spec_n() as int,
            tables.spec_q()@,
        ),
    ensures
        forall|idx: int|
            0 <= idx < tables.spec_n() ==> #[trigger] fwd_from(
                arr,
                tables.psi_table(),
                pow2(k),
                tables.spec_n(),
                tables.spec_q()@,
            )[idx] == red(
                x,
                1,
                zeta(tables.psi_table(), tables.spec_n() as int, idx, tables.spec_q()@),
                0,
                tables.spec_n() as int,
            ) % tables.spec_q()@,
    decreases tables.spec_log_n() - k,
{
    let s = tables.psi_table();
    let q = tables.spec_q()@;
    let n = tables.spec_n();
    let big_l = tables.spec_log_n();
    let m = pow2(k);
    lemma_pow2_pos(k);
    if k == big_l {
        assert forall|idx: int| 0 <= idx < n implies #[trigger] fwd_from(arr, s, m, n, q)[idx]
            == red(x, 1, zeta(s, n as int, idx, q), 0, n as int) % q by {
            assert(n as int / m as int == 1);
            assert(idx / 1 == idx);
            assert(idx % 1 == 0);
        }
    } else {
        lemma_pow2_unfold((big_l - k) as nat);
        lemma_pow2_adds(k, (big_l - k) as nat);
        lemma_pow2_unfold(k + 1);
        let t = pow2((big_l - k - 1) as nat) as int;
        lemma_pow2_pos((big_l - k - 1) as nat);
        assert(m * (2 * t) == n);
        assert(n / (2 * m) == t) by {
            assert(n == (2 * m) * t) by (nonlinear_arith)
                requires
                    m * (2 * t) == n,
            ;
            lemma_div_multiples_vanish(t, (2 * m) as int);
        }
        assert(2 * m <= n) by (nonlinear_arith)
            requires
                m * (2 * t) == n,
                t >= 1,
        ;
        lemma_table_residues(tables);
        assert forall|i: int| 0 <= i < m implies (#[trigger] s[m + i] * s[m + i]) % q == zeta(
            s,
            m as int,
            i,
            q,
        ) by {
            lemma_twiddle_square(tables, k, i);
        }
        if m > 1 {
            assert forall|i: int| 0 <= i < m implies 0 <= #[trigger] zeta(s, m as int, i, q) < q by {
                if k == 0 {
                    lemma_pow2_0();
                } else {
                    lemma_pow2_unfold(k);
                }
                lemma_zeta_range(s, m as int, i, q);
            }
        }
        lemma_stage_splits(arr, x, s, m as int, t, n as int, q);
        let y = fwd_stage(arr, s, m as int, t, q);
        lemma_stages_evaluate(tables, y, x, k + 1);
        assert(fwd_from(arr, s, m, n, q) == fwd_from(y, s, 2 * m, n, q));
    }
}

/// The forward transform of a vector of residues is its value at the point
/// of each final block: `forward(x)[k] = x(ζ_k) mod q`.
pub proof fn lemma_forward_evaluates(tables: NttTables, x: Seq<int>)
    requires
        tables.wf(),
        is_prime(tables.spec_q()@),
        x.len() == tables.spec_n(),
        forall|i: int| 0 <= i < x.len() ==> 0 <= #[trigger] x[i] < tables.spec_q()@,
    ensures
        forall|idx: int|
            0 <= idx < tables.spec_n() ==> #[trigger] tables.forward_spec(x)[idx] == eval(
                x,
                zeta(tables.psi_table(), tables.spec_n() as int, idx, tables.spec_q()@),
            ) % tables.spec_q()@,
{
    let s = tables.psi_table();
    let q = tables.spec_q()@;
    let n = tables.spec_n() as int;
    lemma_pow2_0();
    lemma_pow2_pos(tables.spec_log_n());
    assert forall|idx: int| 0 <= idx < n implies #[trigger] x[idx] == red(
        x,
        n / 1,
        zeta(s, 1, idx / (n / 1), q),
        idx % (n / 1),
        1,
    ) % q by {
        lemma_small_mod(idx as nat, n as nat);
        lemma_small_div_local(idx, n);
        let z = zeta(s, 1, 0, q);
        let f = |l: int| x[idx + l * n] * pow(z, l as nat);
        assert(sum(f, 0, 1) == sum(f, 0, 0) + f(0));
        lemma_pow0(z);
        lemma_small_mod(x[idx] as nat, q as nat);
    }
    lemma_stages_evaluate(tables, x, x, 0);
    assert forall|idx: int| 0 <= idx < n implies #[trigger] tables.forward_spec(x)[idx] == eval(
        x,
        zeta(s, n, idx, q),
    ) % q by {
        let z = zeta(s, n, idx, q);
        lemma_sum_ext(
            |l: int| x[0 + l * 1] * pow(z, l as nat),
            |l: int| x[l] * pow(z, l as nat),
            0,
            n,
        );
    }
}

/// `0 <= i < n` gives `i / n == 0`.
proof fn lemma_small_div_local(i: int, n: int)
    requires
        0 <= i < n,
    ensures
        i / n == 0,
{
    lemma_basic_div(i, n);
}

/// Every final point is a root of `X^N + 1`: `ζ^m ≡ -1` at every level `m`.
pub proof fn lemma_zeta_power(tables: NttTables, k: nat, i: int)
    requires
        tables.wf(),
        is_prime(tables.spec_q()@),
        k <= tables.spec_log_n(),
        0 <= i < pow2(k),
    ensures
        pow(zeta(tables.psi_table(), pow2(k) as int, i, tables.spec_q()@), pow2(k)) % tables.spec_q()@
            == tables.spec_q()@ - 1,
    decreases k,
{
    let s = tables.psi_table();
    let q = tables.spec_q()@;
    if k == 0 {
        lemma_pow2_0();
        lemma_pow1(q - 1);
        lemma_small_mod((q - 1) as nat, q as nat);
    } else {
        let k1 = (k - 1) as nat;
        let m = pow2(k1);
        lemma_pow2_unfold(k);
        lemma_pow2_pos(k1);
        let ip = i / 2;
        lemma_zeta_power(tables, k1, ip);
        lemma_twiddle_square(tables, k1, ip);
        lemma_table_residues(tables);
        assert((2 * m) / 2 + i / 2 == m + ip);
        assert(m + ip < tables.spec_n()) by {
            lemma_pow2_adds(k, (tables.spec_log_n() - k) as nat);
            lemma_pow2_pos((tables.spec_log_n() - k) as nat);
            lemma_mul_increases(pow2((tables.spec_log_n() - k) as nat) as int, pow2(k) as int);
            lemma_mul_is_commutative(pow2((tables.spec_log_n() - k) as nat) as int, pow2(k) as int);
        }
        let w = s[m + ip] as int;
        let v = zeta(s, 2 * m as int, i, q);
        // v² ≡ w² ≡ zeta(m, i/2)
        assert((v * v) % q == (w * w) % q) by {
            if i % 2 == 1 {
                lemma_mod_add_multiples_vanish(-w, q);
                lemma_mul_mod_noop_general(v, v, q);
                lemma_mul_mod_noop_general(-w, -w, q);
                assert((-w) * (-w) == w * w) by (nonlinear_arith);
                lemma_mod_twice(q - w, q);
            }
        }
        lemma_pow_multiplies(v, 2, m);
        lemma_square_is_pow2(v);
        if k1 == 0 {
            lemma_pow2_0();
        } else {
            lemma_pow2_unfold(k1);
        }
        lemma_zeta_range(s, m as int, ip, q);
        lemma_small_mod(zeta(s, m as int, ip, q) as nat, q as nat);
        lemma_pow_congruent(v * v, zeta(s, m as int, ip, q), m, q);
        assert(2 * m == pow2(k));
    }
}

/// Congruent coefficients give congruent values.
proof fn lemma_eval_cong(x: Seq<int>, y: Seq<int>, z: int, q: int)
    requires
        q > 0,
        x.len() == y.len(),
        forall|i: int| 0 <= i < x.len() ==> #[trigger] x[i] % q == y[i] % q,
    ensures
        eval(x, z) % q == eval(y, z) % q,
{
    let f = |l: int| x[l] * pow(z, l as nat);
    let g = |l: int| y[l] * pow(z, l as nat);
    assert forall|l: int| 0 <= l < x.len() implies #[trigger] f(l) % q == g(l) % q by {
        lemma_mul_mod_noop_left(x[l], pow(z, l as nat), q);
        lemma_mul_mod_noop_left(y[l], pow(z, l as nat), q);
    }
    lemma_sum_cong(f, g, 0, x.len() as int, q);
}

/// Row `r` of the negacyclic product, evaluated at a root `z` of `X^n + 1`
/// modulo `q`, is `a_r·z^r·b(z)`.
proof fn lemma_row_eval(a: Seq<int>, b: Seq<int>, r: int, z: int, q: int)
    requires
        q > 1,
        a.len() == b.len(),
        0 <= r < a.len(),
        pow(z, a.len()) % q == q - 1,
    ensures
        sum(|k: int| nc_term(a, b, r, k) * pow(z, k as nat), 0, a.len() as int) % q == ((a[r] * pow(
            z,
            r as nat,
        )) * eval(b, z)) % q,
{
    let n = a.len() as int;
    let c = a[r] * pow(z, r as nat);
    let f = |k: int| nc_term(a, b, r, k) * pow(z, k as nat);
    let bz = |j: int| b[j] * pow(z, j as nat);
    let g = |j: int| c * bz(j);
    lemma_sum_split(f, 0, r, n);
    // the part without a wrap: k = j + r
    lemma_sum_shift(f, r, r, n);
    assert forall|j: int| 0 <= j < n - r implies #[trigger] f(j + r) == g(j) by {
        lemma_pow_adds(z, j as nat, r as nat);
        assert((j + r) as nat == j as nat + r as nat);
        assert(a[r] * b[j] * (pow(z, j as nat) * pow(z, r as nat)) == (a[r] * pow(z, r as nat)) * (
        b[j] * pow(z, j as nat))) by (nonlinear_arith);
    }
    lemma_sum_ext(|j: int| f(j + r), g, 0, n - r);
    // the wrapped part: k = j + r - n, and z^n ≡ -1
    lemma_sum_shift(f, r - n, 0, r);
    assert forall|j: int| n - r <= j < n implies #[trigger] f(j + (r - n)) % q == g(j) % q by {
        let k = j + (r - n);
        let e = a[r] * b[j] * pow(z, k as nat);
        assert(f(k) == -e) by (nonlinear_arith)
            requires
                f(k) == -(a[r] * b[j]) * pow(z, k as nat),
                e == a[r] * b[j] * pow(z, k as nat),
        ;
        lemma_pow_adds(z, k as nat, n as nat);
        lemma_pow_adds(z, j as nat, r as nat);
        assert(k as nat + n as nat == j as nat + r as nat);
        assert(g(j) == e * pow(z, n as nat)) by (nonlinear_arith)
            requires
                g(j) == (a[r] * pow(z, r as nat)) * (b[j] * pow(z, j as nat)),
                pow(z, j as nat) * pow(z, r as nat) == pow(z, k as nat) * pow(z, n as nat),
                e == a[r] * b[j] * pow(z, k as nat),
        ;
        lemma_mul_mod_noop_right(e, pow(z, n as nat), q);
        lemma_times_minus_one(e, q);
    }
    lemma_sum_cong(|j: int| f(j + (r - n)), g, n - r, n, q);
    // put the halves back together
    lemma_sum_scale(bz, c, 0, n - r);
    lemma_sum_scale(bz, c, n - r, n);
    lemma_sum_ext(g, |j: int| c * bz(j), 0, n - r);
    lemma_sum_ext(g, |j: int| c * bz(j), n - r, n);
    lemma_sum_split(bz, 0, n - r, n);
    lemma_sum_ext(bz, |l: int| b[l] * pow(z, l as nat), 0, n);
    let lo = sum(f, 0, r);
    let hi = sum(f, r, n);
    lemma_add_mod_noop(lo, hi, q);
    lemma_add_mod_noop(sum(g, n - r, n), hi, q);
    lemma_mul_is_distributive_add(c, sum(bz, n - r, n), sum(bz, 0, n - r));
}

/// Evaluation at a root `z` of `X^n + 1` turns the negacyclic product into a
/// product: `(a·b)(z) ≡ a(z)·b(z) (mod q)`.
pub proof fn lemma_product_evaluates(a: Seq<int>, b: Seq<int>, z: int, q: int)
    requires
        q > 1,
        a.len() == b.len(),
        pow(z, a.len()) % q == q - 1,
    ensures
        eval(Seq::new(a.len(), |k: int| negacyclic_coeff(a, b, k)), z) % q == (eval(a, z) * eval(
            b,
            z,
        )) % q,
{
    let n = a.len() as int;
    let c = Seq::new(a.len(), |k: int| negacyclic_coeff(a, b, k));
    let g = |r: int, k: int| nc_term(a, b, r, k) * pow(z, k as nat);
    // c(z) = Σ_k Σ_r g(r, k)
    assert forall|k: int| 0 <= k < n implies #[trigger] (c[k] * pow(z, k as nat)) == sum(
        |r: int| g(r, k),
        0,
        n,
    ) by {
        lemma_nc_partial_sum(a, b, a.len(), k);
        let t = |r: int| nc_term(a, b, r, k);
        lemma_sum_scale(t, pow(z, k as nat), 0, n);
        assert forall|r: int| 0 <= r < n implies #[trigger] (pow(z, k as nat) * t(r)) == g(r, k) by {
            lemma_mul_is_commutative(pow(z, k as nat), t(r));
        }
        lemma_sum_ext(|r: int| pow(z, k as nat) * t(r), |r: int| g(r, k), 0, n);
        lemma_mul_is_commutative(c[k], pow(z, k as nat));
    }
    lemma_sum_ext(|l: int| c[l] * pow(z, l as nat), |k: int| sum(|r: int| g(r, k), 0, n), 0, n);
    lemma_sum_swap(g, n, 0, n);
    // each row is a_r z^r b(z)
    let row = |r: int| sum(|k: int| g(r, k), 0, n);
    let az = |r: int| a[r] * pow(z, r as nat);
    assert forall|r: int| 0 <= r < n implies #[trigger] row(r) % q == (eval(b, z) * az(r)) % q by {
        lemma_sum_ext(|k: int| g(r, k), |k: int| nc_term(a, b, r, k) * pow(z, k as nat), 0, n);
        lemma_row_eval(a, b, r, z, q);
        lemma_mul_is_commutative(az(r), eval(b, z));
    }
    lemma_sum_cong(row, |r: int| eval(b, z) * az(r), 0, n, q);
    lemma_sum_scale(az, eval(b, z), 0, n);
    lemma_sum_ext(az, |l: int| a[l] * pow(z, l as nat), 0, n);
    lemma_mul_is_commutative(eval(a, z), eval(b, z));
}

/// On residues, multiplication through the transform is negacyclic
/// multiplication modulo `q`.
proof fn lemma_mul_residues(tables: NttTables, a: Seq<int>, b: Seq<int>)
    requires
        tables.wf(),
        is_prime(tables.spec_q()@),
        a.len() == tables.spec_n(),
        b.len() == tables.spec_n(),
        forall|i: int| 0 <= i < a.len() ==> 0 <= #[trigger] a[i] < tables.spec_q()@,
        forall|i: int| 0 <= i < b.len() ==> 0 <= #[trigger] b[i] < tables.spec_q()@,
    ensures
        tables.mul_spec(a, b) == Seq::new(
            tables.spec_n(),
            |k: int| negacyclic_coeff(a, b, k) % tables.spec_q()@,
        ),
{
    let q = tables.spec_q()@;
    let n = tables.spec_n() as int;
    let s = tables.psi_table();
    let c = Seq::new(tables.spec_n(), |k: int| negacyclic_coeff(a, b, k) % q);
    let exact = Seq::new(a.len(), |k: int| negacyclic_coeff(a, b, k));
    assert forall|i: int| 0 <= i < c.len() implies 0 <= #[trigger] c[i] < q by {
        lemma_mod_bound(negacyclic_coeff(a, b, i), q);
    }
    lemma_forward_evaluates(tables, a);
    lemma_forward_evaluates(tables, b);
    lemma_forward_evaluates(tables, c);
    let fa = tables.forward_spec(a);
    let fb = tables.forward_spec(b);
    let fc = tables.forward_spec(c);
    crate::ntt_laws::lemma_forward_len(tables, a);
    crate::ntt_laws::lemma_forward_len(tables, b);
    crate::ntt_laws::lemma_forward_len(tables, c);
    assert forall|k: int| 0 <= k < n implies #[trigger] pointwise(fa, fb, q)[k] == fc[k] by {
        let z = zeta(s, n, k, q);
        lemma_pow2_pos(tables.spec_log_n());
        lemma_zeta_power(tables, tables.spec_log_n(), k);
        lemma_product_evaluates(a, b, z, q);
        assert forall|i: int| 0 <= i < n implies #[trigger] c[i] % q == exact[i] % q by {
            lemma_mod_twice(negacyclic_coeff(a, b, i), q);
        }
        lemma_eval_cong(c, exact, z, q);
        lemma_mul_mod_noop_general(eval(a, z), eval(b, z), q);
        assert(fa[k] == eval(a, z) % q);
        assert(fb[k] == eval(b, z) % q);
        assert(fc[k] == eval(c, z) % q);
        assert(pointwise(fa, fb, q)[k] == (fa[k] * fb[k]) % q);
    }
    assert(pointwise(fa, fb, q) =~= fc) by {
        crate::ntt_laws::lemma_forward_len(tables, a);
        crate::ntt_laws::lemma_forward_len(tables, b);
        crate::ntt_laws::lemma_forward_len(tables, c);
    }
    crate::ntt_laws::lemma_ntt_roundtrip(tables, c);
}


/// Multiplication through the transform is negacyclic multiplication: for a
/// prime modulus, `NttTables::mul` gives what `Poly::mul_schoolbook` gives,
/// whatever the coefficients (they need not be reduced).
pub proof fn lemma_ntt_mul_is_negacyclic(tables: NttTables, a: Seq<int>, b: Seq<int>)
    requires
        tables.wf(),
        is_prime(tables.spec_q()@),
        a.len() == tables.spec_n(),
        b.len() == tables.spec_n(),
    ensures
        tables.mul_spec(a, b) == Seq::new(
            tables.spec_n(),
            |k: int| negacyclic_coeff(a, b, k) % tables.spec_q()@,
        ),
{
    let q = tables.spec_q()@;
    let n = tables.spec_n();
    let ar = Seq::new(n, |i: int| a[i] % q);
    let br = Seq::new(n, |i: int| b[i] % q);
    assert forall|i: int| 0 <= i < n implies #[trigger] ar[i] % q == a[i] % q && br[i] % q == b[i]
        % q && 0 <= ar[i] < q && 0 <= br[i] < q by {
        lemma_mod_twice(a[i], q);
        lemma_mod_twice(b[i], q);
        lemma_mod_bound(a[i], q);
        lemma_mod_bound(b[i], q);
    }
    lemma_mul_residues(tables, ar, br);
    assert(crate::ntt_laws::congruent(a, ar, q)) by {
        assert forall|i: int| 0 <= i < n implies #[trigger] a[i] % q == ar[i] % q by {
            lemma_mod_twice(a[i], q);
        }
    }
    assert(crate::ntt_laws::congruent(b, br, q)) by {
        assert forall|i: int| 0 <= i < n implies #[trigger] b[i] % q == br[i] % q by {
            lemma_mod_twice(b[i], q);
        }
    }
    lemma_forward_cong(tables, a, ar);
    lemma_forward_cong(tables, b, br);
    let fa = tables.forward_spec(a);
    let fb = tables.forward_spec(b);
    let far = tables.forward_spec(ar);
    let fbr = tables.forward_spec(br);
    crate::ntt_laws::lemma_forward_len(tables, a);
    crate::ntt_laws::lemma_forward_len(tables, b);
    assert(pointwise(fa, fb, q) =~= pointwise(far, fbr, q)) by {
        assert forall|k: int| 0 <= k < fa.len() implies #[trigger] pointwise(fa, fb, q)[k]
            == pointwise(far, fbr, q)[k] by {
            lemma_mul_mod_noop_general(fa[k], fb[k], q);
            lemma_mul_mod_noop_general(far[k], fbr[k], q);
        }
    }
    assert forall|k: int| 0 <= k < n implies negacyclic_coeff(ar, br, k) % q
        == #[trigger] negacyclic_coeff(a, b, k) % q by {
        crate::ring_laws::lemma_nc_congruent(a, b, ar, br, q, n, k);
    }
    assert(tables.mul_spec(a, b) =~= Seq::new(n, |k: int| negacyclic_coeff(a, b, k) % q));
}

} // verus!
