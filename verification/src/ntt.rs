//! The negacyclic number-theoretic transform: multiplication in `R_q` in
//! `O(N log N)`.
//!
//! A plain NTT computes a cyclic convolution, a product modulo `X^N - 1`. For
//! `X^N + 1` the transform runs over the powers of `ψ`, a primitive `2N`-th
//! root of unity modulo `q`, which is why `q ≡ 1 (mod 2N)` is required.

use crate::arith::{
    is_pow2, is_prime, lemma_divide_out, lemma_divides_trans, lemma_least_factor_prime,
    lemma_no_small_factor_prime, lemma_pow2_0, lemma_prime_divides_prime,
};
use crate::modulus::{add_spec, sub_in_range, sub_spec, Modulus};
use crate::ntt_laws::lemma_residues_inverse_fits;
use crate::ring::{u64s, Poly};
use vstd::arithmetic::div_mod::*;
use vstd::arithmetic::mul::*;
use vstd::arithmetic::power::*;
use vstd::arithmetic::power2::*;
use vstd::prelude::*;

verus! {

/// `x` with its low `bits` bits reversed.
pub open spec fn brv(x: nat, bits: nat) -> nat
    decreases bits,
{
    if bits == 0 {
        0
    } else {
        (x % 2) * pow2((bits - 1) as nat) + brv(x / 2, (bits - 1) as nat)
    }
}

/// `r` is a primitive root of unity of order `order` modulo `q`: `r^order ≡ 1`,
/// and `r^(order/p) ≢ 1` for every prime `p` dividing `order`.
pub open spec fn is_primitive_root(r: int, order: int, q: int) -> bool {
    &&& 1 < r
    &&& pow(r, order as nat) % q == 1
    &&& forall|p: int|
        is_prime(p) && #[trigger] (order % p) == 0 ==> pow(r, (order / p) as nat) % q != 1
}

/// The first candidate `g` from `c` up to 999 whose power `g^((q-1)/order) mod q`
/// is a primitive root of order `order`, and that root.
pub open spec fn root_search(order: int, q: int, c: int) -> Option<u64>
    decreases 1000 - c,
{
    if c >= 1000 {
        None
    } else {
        let r = pow(c, ((q - 1) / order) as nat) % q;
        if is_primitive_root(r, order, q) {
            Some(r as u64)
        } else {
            root_search(order, q, c + 1)
        }
    }
}

/// What `primitive_root_of_unity` returns.
pub open spec fn primitive_root_spec(order: int, q: int) -> Option<u64> {
    if (q - 1) % order != 0 {
        None
    } else {
        root_search(order, q, 2)
    }
}

/// Forward stage `m` (of `log2 N`) with half-block length `t`: in block `i`
/// of length `2t`, with twiddle `w[m+i]` and `v = w·x[j+t] mod q`, each pair
/// `(x[j], x[j+t])` becomes `(x[j] + v, x[j] - v)`, brought back by one `q`
/// as `Modulus::add` and `Modulus::sub` do (on residues: modulo `q`).
pub open spec fn fwd_stage(x: Seq<int>, w: Seq<u64>, m: int, t: int, q: int) -> Seq<int> {
    Seq::new(
        x.len(),
        |idx: int|
            {
                let s = w[m + idx / (2 * t)] as int;
                if idx % (2 * t) < t {
                    add_spec(x[idx], (x[idx + t] * s) % q, q)
                } else {
                    sub_spec(x[idx - t], (x[idx] * s) % q, q)
                }
            },
    )
}

/// The forward stages from `m` on: `m, 2m, 4m, …` below `n`.
pub open spec fn fwd_from(x: Seq<int>, w: Seq<u64>, m: nat, n: nat, q: int) -> Seq<int>
    decreases (if m < n {
        n - m
    } else {
        0
    }),
{
    if m == 0 || m >= n {
        x
    } else {
        fwd_from(fwd_stage(x, w, m as int, (n / (2 * m)) as int, q), w, 2 * m, n, q)
    }
}

/// Forward stage `m` runs inside `u64`: in every pair the sum
/// `x[j] + (w·x[j+t] mod q)` fits. (The difference never leaves `u64`: it adds
/// `q` only to an `x[j]` below a residue.)
#[verifier::opaque]
pub open spec fn fwd_stage_fits(x: Seq<int>, w: Seq<u64>, m: int, t: int, q: int) -> bool {
    forall|idx: int|
        0 <= idx < x.len() && idx % (2 * t) < t ==> #[trigger] x[idx] + (x[idx + t] * (w[m + idx
            / (2 * t)] as int)) % q <= u64::MAX
}

/// The forward stages from `m` on all run inside `u64`.
pub open spec fn fwd_fits_from(x: Seq<int>, w: Seq<u64>, m: nat, n: nat, q: int) -> bool
    decreases (if m < n {
        n - m
    } else {
        0
    }),
{
    if m == 0 || m >= n {
        true
    } else {
        let t = (n / (2 * m)) as int;
        fwd_stage_fits(x, w, m as int, t, q) && fwd_fits_from(
            fwd_stage(x, w, m as int, t, q),
            w,
            2 * m,
            n,
            q,
        )
    }
}

/// Inverse stage with `h` blocks of length `2t`: with twiddle `w[h+i]`, each
/// pair `(y[j], y[j+t])` becomes `(y[j] + y[j+t], (y[j] - y[j+t])·w)`, the sum
/// brought back and the difference lifted by one `q` as `Modulus::add` and
/// `Modulus::sub` do, the product taken modulo `q` (on residues: all of it
/// modulo `q`).
pub open spec fn inv_stage(y: Seq<int>, w: Seq<u64>, h: int, t: int, q: int) -> Seq<int> {
    Seq::new(
        y.len(),
        |idx: int|
            {
                let s = w[h + idx / (2 * t)] as int;
                if idx % (2 * t) < t {
                    add_spec(y[idx], y[idx + t], q)
                } else {
                    (sub_spec(y[idx - t], y[idx], q) * s) % q
                }
            },
    )
}

/// Inverse stage `h` runs inside `u64`: in every pair the sum
/// `y[j] + y[j+t]` fits, and so does the difference lifted by `q`.
#[verifier::opaque]
pub open spec fn inv_stage_fits(y: Seq<int>, w: Seq<u64>, h: int, t: int, q: int) -> bool {
    forall|idx: int|
        0 <= idx < y.len() && idx % (2 * t) < t ==> #[trigger] y[idx] + y[idx + t] <= u64::MAX
            && sub_in_range(y[idx], y[idx + t], q)
}

/// The inverse stages `n/2, n/4, …, m`, the largest applied first.
pub open spec fn inv_from(y: Seq<int>, w: Seq<u64>, m: nat, n: nat, q: int) -> Seq<int>
    decreases (if m < n {
        n - m
    } else {
        0
    }),
{
    if m == 0 || m >= n {
        y
    } else {
        inv_stage(inv_from(y, w, 2 * m, n, q), w, m as int, (n / (2 * m)) as int, q)
    }
}

/// The inverse stages `n/2, …, m` all run inside `u64`, each on what the
/// stages before it left.
pub open spec fn inv_fits_from(y: Seq<int>, w: Seq<u64>, m: nat, n: nat, q: int) -> bool
    decreases (if m < n {
        n - m
    } else {
        0
    }),
{
    if m == 0 || m >= n {
        true
    } else {
        inv_fits_from(y, w, 2 * m, n, q) && inv_stage_fits(
            inv_from(y, w, 2 * m, n, q),
            w,
            m as int,
            (n / (2 * m)) as int,
            q,
        )
    }
}

/// Every entry times `c`, modulo `q`.
pub open spec fn scale(x: Seq<int>, c: int, q: int) -> Seq<int> {
    Seq::new(x.len(), |i: int| (x[i] * c) % q)
}

/// The entry-wise product modulo `q`.
pub open spec fn pointwise(x: Seq<int>, y: Seq<int>, q: int) -> Seq<int> {
    Seq::new(x.len(), |i: int| (x[i] * y[i]) % q)
}

/// Every entry lies in `[0, q)`.
pub open spec fn reduced(x: Seq<u64>, q: int) -> bool {
    forall|i: int| 0 <= i < x.len() ==> #[trigger] x[i] < q
}

/// Whether index `idx` has been processed once the blocks below `i` are
/// complete and the first `d` pairs of block `i` are: `(2t)·i + o` and
/// `(2t)·i + t + o` for `o < d`.
pub open spec fn pair_done(idx: int, i: int, d: int, t: int) -> bool {
    let b = idx / (2 * t);
    let o = idx % (2 * t);
    b < i || (b == i && (o < d || (t <= o && o < t + d)))
}

/// Precomputed twiddle factors for one `(N, q)` pair.
#[derive(Clone, Debug)]
pub struct NttTables {
    n: usize,
    q: Modulus,
    /// `ψ^i` in bit-reversed order, for the forward transform.
    psi_powers: Vec<u64>,
    /// `ψ^-i` in bit-reversed order, for the inverse.
    inv_psi_powers: Vec<u64>,
    n_inverse: u64,
    /// The primitive `2N`-th root of unity the tables are built from.
    psi: u64,
}

impl NttTables {
    pub closed spec fn spec_n(&self) -> nat {
        self.n as nat
    }

    pub closed spec fn spec_q(&self) -> Modulus {
        self.q
    }

    pub open spec fn spec_log_n(&self) -> nat {
        log2_spec(self.spec_n())
    }

    /// The root of unity `ψ` behind the tables.
    pub closed spec fn spec_psi(&self) -> int {
        self.psi as int
    }

    /// `ψ^brv(j) mod q` at index `j`.
    pub closed spec fn psi_table(&self) -> Seq<u64> {
        self.psi_powers@
    }

    /// `(ψ^(q-2))^brv(j) mod q` at index `j`.
    pub closed spec fn inv_psi_table(&self) -> Seq<u64> {
        self.inv_psi_powers@
    }

    /// `N^(q-2) mod q`.
    pub closed spec fn spec_n_inverse(&self) -> int {
        self.n_inverse as int
    }

    /// The tables of one `(N, q)` pair: `N = 2^log_n`, `2N | q - 1`, `ψ` a
    /// primitive `2N`-th root of unity, and each table entry the power of
    /// `ψ` or of its inverse at the bit-reversed index.
    pub open spec fn wf(&self) -> bool {
        let n = self.spec_n();
        let q = self.spec_q()@;
        let psi = self.spec_psi();
        let psi_inv = pow(psi, (q - 2) as nat) % q;
        &&& self.spec_q().wf()
        &&& n == pow2(self.spec_log_n())
        &&& (q - 1) % ((2 * n) as int) == 0
        &&& 1 < psi < q
        &&& is_primitive_root(psi, (2 * n) as int, q)
        &&& self.psi_table().len() == n
        &&& self.inv_psi_table().len() == n
        &&& forall|j: int|
            0 <= j < n ==> #[trigger] self.psi_table()[j] == pow(psi, brv(j as nat, self.spec_log_n()))
                % q
        &&& forall|j: int|
            0 <= j < n ==> #[trigger] self.inv_psi_table()[j] == pow(
                psi_inv,
                brv(j as nat, self.spec_log_n()),
            ) % q
        &&& self.spec_n_inverse() == pow(n as int, (q - 2) as nat) % q
    }

    /// Build the tables for degree `n` and modulus `q`; `n` must be a power of
    /// two, `q ≡ 1 (mod 2n)`, and the root search must find a primitive
    /// `2n`-th root of unity.
    pub fn new(n: usize, q: Modulus) -> (r: NttTables)
        requires
            q.wf(),
            is_pow2(n as nat),
            (q@ - 1) % (2 * n) == 0,
            primitive_root_spec(2 * n, q@) is Some,
        ensures
            r.wf(),
            r.spec_n() == n,
            r.spec_q() == q,
            r.spec_psi() == primitive_root_spec(2 * n, q@)->0,
    {
        let modulus = q.value();
        let log_n = log2(n);
        proof {
            lemma_pow2_pos(log_n as nat);
            assert(modulus - 1 >= 2 * n) by {
                lemma_mod_multiples_vanish_le(modulus - 1, 2 * n);
            }
        }
        let order = 2 * n as u64;
        let psi = match primitive_root_of_unity(order, q) {
            Some(r) => r,
            None => 0,
        };
        proof {
            lemma_root_search_sound(order as int, modulus as int, 2);
        }
        proof {
            lemma_small_mod(psi as nat, modulus as nat);
        }
        let psi_inv = match q.inverse(psi) {
            Some(x) => x,
            None => 0,
        };
        let mut psi_powers = vec_of_zeros(n);
        let mut inv_psi_powers = vec_of_zeros(n);
        let mut power: u64 = 1;
        let mut inv_power: u64 = 1;
        let ghost qi = modulus as int;
        proof {
            lemma_small_mod(1, modulus as nat);
            lemma_pow0(psi as int);
            lemma_pow0(psi_inv as int);
        }
        for i in 0..n
            invariant
                q.wf(),
                modulus == q@,
                qi == q@,
                n == pow2(log_n as nat),
                psi_powers@.len() == n,
                inv_psi_powers@.len() == n,
                power == pow(psi as int, i as nat) % qi,
                inv_power == pow(psi_inv as int, i as nat) % qi,
                forall|k: int|
                    0 <= k < i ==> psi_powers@[#[trigger] brv(k as nat, log_n as nat) as int]
                        == pow(psi as int, k as nat) % qi,
                forall|k: int|
                    0 <= k < i ==> inv_psi_powers@[#[trigger] brv(k as nat, log_n as nat) as int]
                        == pow(psi_inv as int, k as nat) % qi,
        {
            let rev = bit_reverse(i, log_n);
            proof {
                lemma_brv_bound(i as nat, log_n as nat);
                assert forall|k: int| 0 <= k < i implies #[trigger] brv(k as nat, log_n as nat) != rev by {
                    lemma_brv_involution(k as nat, log_n as nat);
                    lemma_brv_involution(i as nat, log_n as nat);
                }
            }
            psi_powers.set(rev, power);
            inv_psi_powers.set(rev, inv_power);
            proof {
                assert forall|k: int| 0 <= k < i + 1 implies psi_powers@[#[trigger] brv(
                    k as nat,
                    log_n as nat,
                ) as int] == pow(psi as int, k as nat) % qi && inv_psi_powers@[brv(
                    k as nat,
                    log_n as nat,
                ) as int] == pow(psi_inv as int, k as nat) % qi by {
                    lemma_brv_bound(k as nat, log_n as nat);
                    if k < i {
                        assert(brv(k as nat, log_n as nat) != rev);
                    }
                }
                lemma_pow_step_mod(psi as int, i as nat, qi);
                lemma_pow_step_mod(psi_inv as int, i as nat, qi);
            }
            power = q.mul(power, psi);
            inv_power = q.mul(inv_power, psi_inv);
        }
        let n_inverse = match q.inverse(n as u64) {
            Some(x) => x,
            None => 0,
        };
        proof {
            lemma_small_mod(n as nat, modulus as nat);
        }
        let r = NttTables {
            n,
            q,
            psi_powers,
            inv_psi_powers,
            n_inverse,
            psi,
        };
        proof {
            assert forall|j: int| 0 <= j < n implies #[trigger] r.psi_table()[j] == pow(
                psi as int,
                brv(j as nat, log_n as nat),
            ) % qi && r.inv_psi_table()[j] == pow(psi_inv as int, brv(j as nat, log_n as nat))
                % qi by {
                lemma_brv_involution(j as nat, log_n as nat);
                lemma_brv_bound(j as nat, log_n as nat);
                let k = brv(j as nat, log_n as nat) as int;
                assert(psi_powers@[brv(k as nat, log_n as nat) as int] == pow(psi as int, k as nat)
                    % qi);
            }
            assert forall|j: int| 0 <= j < n implies #[trigger] r.inv_psi_table()[j] == pow(
                psi_inv as int,
                brv(j as nat, log_n as nat),
            ) % qi by {
                assert(r.psi_table()[j] == pow(psi as int, brv(j as nat, log_n as nat)) % qi);
            }
            assert(r.spec_q().wf());
            assert(r.spec_n() == pow2(r.spec_log_n()));
            assert((q@ - 1) % ((2 * r.spec_n()) as int) == 0);
            assert(1 < r.spec_psi() < q@);
            assert(is_primitive_root(r.spec_psi(), (2 * r.spec_n()) as int, q@));
            assert(r.spec_n_inverse() == pow(n as int, (q@ - 2) as nat) % q@);
        }
        r
    }

    /// What `forward` computes: all the stages in turn.
    pub open spec fn forward_spec(&self, x: Seq<int>) -> Seq<int> {
        fwd_from(x, self.psi_table(), 1, self.spec_n(), self.spec_q()@)
    }

    /// The inputs on which `forward` stays inside `u64`.
    pub open spec fn forward_fits(&self, x: Seq<int>) -> bool {
        fwd_fits_from(x, self.psi_table(), 1, self.spec_n(), self.spec_q()@)
    }

    /// The inputs on which `inverse` stays inside `u64`.
    pub open spec fn inverse_fits(&self, y: Seq<int>) -> bool {
        inv_fits_from(y, self.inv_psi_table(), 1, self.spec_n(), self.spec_q()@)
    }

    /// What `inverse` computes: all the inverse stages, then `N^-1`.
    pub open spec fn inverse_spec(&self, y: Seq<int>) -> Seq<int> {
        scale(
            inv_from(y, self.inv_psi_table(), 1, self.spec_n(), self.spec_q()@),
            self.spec_n_inverse(),
            self.spec_q()@,
        )
    }

    /// What `mul` computes: transform both, multiply entry-wise, transform back.
    pub open spec fn mul_spec(&self, a: Seq<int>, b: Seq<int>) -> Seq<int> {
        self.inverse_spec(pointwise(self.forward_spec(a), self.forward_spec(b), self.spec_q()@))
    }

    /// Forward transform, in place. Input in natural order, output in
    /// bit-reversed order. Every input whose sums stay inside `u64` is
    /// accepted; residues always are (`ntt_laws::lemma_room_fits`).
    pub fn forward(&self, values: &mut [u64])
        requires
            self.wf(),
            old(values)@.len() == self.spec_n(),
            self.forward_fits(u64s(old(values)@)),
        ensures
            final(values)@.len() == self.spec_n(),
            reduced(old(values)@, self.spec_q()@) ==> reduced(final(values)@, self.spec_q()@),
            u64s(final(values)@) == self.forward_spec(u64s(old(values)@)),
    {
        let q = &self.q;
        let n = self.n;
        let ghost qi = q@;
        let ghost big_l = self.spec_log_n();
        let ghost x0 = u64s(values@);
        let ghost w = self.psi_table();
        let ghost r0 = reduced(values@, q@);
        let mut t = n;
        let mut m: usize = 1;
        let ghost mut lm: nat = 0;
        proof {
            lemma_pow2_0();
        }
        while m < n
            invariant
                self.wf(),
                q == self.spec_q(),
                qi == q@,
                n == self.spec_n(),
                w == self.psi_table(),
                big_l == self.spec_log_n(),
                n == pow2(big_l),
                values@.len() == n,
                fwd_fits_from(u64s(values@), w, m as nat, n as nat, qi),
                r0 ==> reduced(values@, qi),
                m == pow2(lm),
                t == pow2((big_l - lm) as nat),
                lm <= big_l,
                fwd_from(u64s(values@), w, m as nat, n as nat, qi) == fwd_from(
                    x0,
                    w,
                    1,
                    n as nat,
                    qi,
                ),
            decreases n - m,
        {
            proof {
                lemma_stage_sizes(lm, big_l);
                lemma_pow2_pos((big_l - lm - 1) as nat);
                lemma_pow2_pos(lm);
            }
            t = t / 2;
            proof {
                assert(m * (2 * t) == n);
                assert(2 * m <= n) by (nonlinear_arith)
                    requires
                        m * (2 * t) == n,
                        t >= 1,
                        m >= 1,
                ;
            }
            let ghost cur = u64s(values@);
            let ghost stage = fwd_stage(cur, w, m as int, t as int, qi);
            proof {
                lemma_fwd_fits_step(cur, w, m as int, t as int, n as int, qi);
            }
            for i in 0..m
                invariant
                    self.wf(),
                    q == self.spec_q(),
                    qi == q@,
                    n == self.spec_n(),
                    w == self.psi_table(),
                    values@.len() == n,
                    r0 ==> reduced(values@, qi),
                    cur.len() == n,
                    forall|k: int| 0 <= k < n ==> 0 <= #[trigger] cur[k],
                    r0 ==> forall|k: int| 0 <= k < n ==> #[trigger] cur[k] < qi,
                    stage == fwd_stage(cur, w, m as int, t as int, qi),
                    fwd_stage_fits(cur, w, m as int, t as int, qi),
                    fwd_fits_from(stage, w, 2 * m as nat, n as nat, qi),
                    t >= 1,
                    2 * m <= n,
                    m * (2 * t) == n,
                    forall|idx: int|
                        0 <= idx < n ==> #[trigger] values@[idx] as int == (if pair_done(
                            idx,
                            i as int,
                            0,
                            t as int,
                        ) {
                            stage[idx]
                        } else {
                            cur[idx]
                        }),
            {
                proof {
                    assert(2 * i * t + 2 * t <= n && 2 * i * t == 2 * t * i) by (nonlinear_arith)
                        requires
                            i < m,
                            m * (2 * t) == n,
                            t >= 1,
                    ;
                }
                let j1 = 2 * i * t;
                let j2 = j1 + t;
                let s = self.psi_powers[m + i];
                for j in j1..j2
                    invariant
                        self.wf(),
                        q == self.spec_q(),
                        qi == q@,
                        n == self.spec_n(),
                        w == self.psi_table(),
                        values@.len() == n,
                        r0 ==> reduced(values@, qi),
                        cur.len() == n,
                        forall|k: int| 0 <= k < n ==> 0 <= #[trigger] cur[k],
                        r0 ==> forall|k: int| 0 <= k < n ==> #[trigger] cur[k] < qi,
                        stage == fwd_stage(cur, w, m as int, t as int, qi),
                        fwd_stage_fits(cur, w, m as int, t as int, qi),
                        t >= 1,
                        i < m,
                        m * (2 * t) == n,
                        j1 == 2 * t * i,
                        j2 == j1 + t,
                        j2 + t <= n,
                        s == w[m + i],
                        forall|idx: int|
                            0 <= idx < n ==> #[trigger] values@[idx] as int == (if pair_done(
                                idx,
                                i as int,
                                j - j1,
                                t as int,
                            ) {
                                stage[idx]
                            } else {
                                cur[idx]
                            }),
                {
                    let ghost before = values@;
                    let u = values[j];
                    let v = q.mul(values[j + t], s);
                    proof {
                        lemma_pair_index(i as int, (j - j1) as int, t as int);
                        assert(!pair_done(j as int, i as int, j - j1, t as int));
                        assert(!pair_done(j + t, i as int, j - j1, t as int));
                        assert(u == cur[j as int]);
                        assert(before[j + t] == cur[j + t]);
                        assert((j as int) % (2 * t as int) < t);
                        reveal(fwd_stage_fits);
                        assert(cur[j as int] + (cur[j + t] * (w[m + (j as int) / (2 * t as int)]
                            as int)) % qi <= u64::MAX);
                        lemma_mod_bound(cur[j + t] * (s as int), qi);
                    }
                    values[j] = q.add(u, v);
                    values[j + t] = q.sub(u, v);
                    proof {
                        assert forall|idx: int| 0 <= idx < n implies #[trigger] values@[idx] as int
                            == (if pair_done(idx, i as int, j + 1 - j1, t as int) {
                            stage[idx]
                        } else {
                            cur[idx]
                        }) by {
                            lemma_pair_done_step(idx, i as int, (j - j1) as int, t as int);
                        }
                        if r0 {
                            assert(reduced(values@, qi)) by {
                                assert forall|k: int| 0 <= k < n implies #[trigger] values@[k]
                                    < qi by {
                                    assert(before[k] < qi);
                                }
                            }
                        }
                    }
                }
                proof {
                    assert forall|idx: int| 0 <= idx < n implies pair_done(
                        idx,
                        i as int,
                        t as int,
                        t as int,
                    ) == pair_done(idx, i as int + 1, 0, t as int) by {
                        lemma_mod_bound(idx, 2 * t as int);
                    }
                }
            }
            proof {
                assert forall|idx: int| 0 <= idx < n implies pair_done(
                    idx,
                    m as int,
                    0,
                    t as int,
                ) by {
                    lemma_block_of_index(idx, m as int, t as int);
                }
                assert(u64s(values@) =~= stage);
                assert(fwd_fits_from(u64s(values@), w, 2 * m as nat, n as nat, qi));
                lemma_pow2_unfold(lm + 1);
                lemma_stage_t(m as int, t as int, n as int);
            }
            m = m * 2;
            proof {
                lm = lm + 1;
            }
        }
        proof {
            assert(fwd_from(u64s(values@), w, m as nat, n as nat, qi) == u64s(values@));
        }
    }

    /// Inverse transform, in place. Input in bit-reversed order, output in
    /// natural order. Every input whose sums stay inside `u64` is accepted;
    /// residues always are (`ntt_laws::lemma_residues_inverse_fits`).
    pub fn inverse(&self, values: &mut [u64])
        requires
            self.wf(),
            old(values)@.len() == self.spec_n(),
            self.inverse_fits(u64s(old(values)@)),
        ensures
            final(values)@.len() == self.spec_n(),
            reduced(final(values)@, self.spec_q()@),
            u64s(final(values)@) == self.inverse_spec(u64s(old(values)@)),
    {
        let q = &self.q;
        let n = self.n;
        let ghost qi = q@;
        let ghost big_l = self.spec_log_n();
        let ghost y0 = u64s(values@);
        let ghost w = self.inv_psi_table();
        let mut t: usize = 1;
        let mut m = n;
        let ghost mut lm: nat = big_l;
        proof {
            lemma_pow2_0();
            assert((big_l - big_l) as nat == 0);
        }
        while m > 1
            invariant
                self.wf(),
                q == self.spec_q(),
                qi == q@,
                n == self.spec_n(),
                w == self.inv_psi_table(),
                big_l == self.spec_log_n(),
                n == pow2(big_l),
                values@.len() == n,
                inv_fits_from(y0, w, 1, n as nat, qi),
                m == pow2(lm),
                t == pow2((big_l - lm) as nat),
                lm <= big_l,
                u64s(values@) == inv_from(y0, w, m as nat, n as nat, qi),
            decreases m,
        {
            proof {
                if lm == 0 {
                    lemma_pow2_0();
                    assert(false);
                }
                lemma_pow2_unfold(lm);
                lemma_stage_sizes((lm - 1) as nat, big_l);
                lemma_pow2_pos((big_l - lm) as nat);
                lemma_pow2_pos((lm - 1) as nat);
                assert((big_l - (lm - 1) - 1) as nat == (big_l - lm) as nat);
            }
            let h = m / 2;
            proof {
                assert(h * (2 * t) == n);
                assert(2 * h <= n) by (nonlinear_arith)
                    requires
                        h * (2 * t) == n,
                        t >= 1,
                        h >= 1,
                ;
                assert(2 * t * 0 == 0);
            }
            let ghost cur = u64s(values@);
            let ghost stage = inv_stage(cur, w, h as int, t as int, qi);
            proof {
                lemma_pow2_0();
                lemma_inv_fits_at(y0, w, 0, (lm - 1) as nat, big_l, qi);
                assert((big_l - (lm - 1) - 1) as nat == (big_l - lm) as nat);
                assert(inv_stage_fits(cur, w, h as int, t as int, qi));
            }
            let mut j1: usize = 0;
            for i in 0..h
                invariant
                    self.wf(),
                    q == self.spec_q(),
                    qi == q@,
                    n == self.spec_n(),
                    w == self.inv_psi_table(),
                    values@.len() == n,
                    cur.len() == n,
                    forall|k: int| 0 <= k < n ==> 0 <= #[trigger] cur[k],
                    stage == inv_stage(cur, w, h as int, t as int, qi),
                    inv_stage_fits(cur, w, h as int, t as int, qi),
                    t >= 1,
                    2 * h <= n,
                    h * (2 * t) == n,
                    j1 == 2 * t * i,
                    forall|idx: int|
                        0 <= idx < n ==> #[trigger] values@[idx] as int == (if pair_done(
                            idx,
                            i as int,
                            0,
                            t as int,
                        ) {
                            stage[idx]
                        } else {
                            cur[idx]
                        }),
            {
                proof {
                    assert(2 * t * i + 2 * t <= n && 2 * t * (i + 1) == 2 * t * i + 2 * t) by (
                    nonlinear_arith)
                        requires
                            i < h,
                            h * (2 * t) == n,
                            t >= 1,
                    ;
                }
                let j2 = j1 + t;
                let s = self.inv_psi_powers[h + i];
                for j in j1..j2
                    invariant
                        self.wf(),
                        q == self.spec_q(),
                        qi == q@,
                        n == self.spec_n(),
                        w == self.inv_psi_table(),
                        values@.len() == n,
                        cur.len() == n,
                        forall|k: int| 0 <= k < n ==> 0 <= #[trigger] cur[k],
                        stage == inv_stage(cur, w, h as int, t as int, qi),
                        inv_stage_fits(cur, w, h as int, t as int, qi),
                        t >= 1,
                        i < h,
                        h * (2 * t) == n,
                        j1 == 2 * t * i,
                        j2 == j1 + t,
                        j2 + t <= n,
                        s == w[h + i],
                        forall|idx: int|
                            0 <= idx < n ==> #[trigger] values@[idx] as int == (if pair_done(
                                idx,
                                i as int,
                                j - j1,
                                t as int,
                            ) {
                                stage[idx]
                            } else {
                                cur[idx]
                            }),
                {
                    let ghost before = values@;
                    let u = values[j];
                    let v = values[j + t];
                    proof {
                        lemma_pair_index(i as int, (j - j1) as int, t as int);
                        assert(!pair_done(j as int, i as int, j - j1, t as int));
                        assert(!pair_done(j + t, i as int, j - j1, t as int));
                        assert(u == cur[j as int]);
                        assert(v == cur[j + t]);
                        assert((j as int) % (2 * t as int) < t);
                        reveal(inv_stage_fits);
                        assert(cur[j as int] + cur[j + t] <= u64::MAX && sub_in_range(
                            cur[j as int],
                            cur[j + t],
                            qi,
                        ));
                    }
                    values[j] = q.add(u, v);
                    values[j + t] = q.mul(q.sub(u, v), s);
                    proof {
                        assert forall|idx: int| 0 <= idx < n implies #[trigger] values@[idx] as int
                            == (if pair_done(idx, i as int, j + 1 - j1, t as int) {
                            stage[idx]
                        } else {
                            cur[idx]
                        }) by {
                            lemma_pair_done_step(idx, i as int, (j - j1) as int, t as int);
                        }
                    }
                }
                proof {
                    assert forall|idx: int| 0 <= idx < n implies pair_done(
                        idx,
                        i as int,
                        t as int,
                        t as int,
                    ) == pair_done(idx, i as int + 1, 0, t as int) by {
                        lemma_mod_bound(idx, 2 * t as int);
                    }
                }
                j1 = j1 + 2 * t;
            }
            proof {
                assert forall|idx: int| 0 <= idx < n implies pair_done(
                    idx,
                    h as int,
                    0,
                    t as int,
                ) by {
                    lemma_block_of_index(idx, h as int, t as int);
                }
                assert(u64s(values@) =~= stage);
                lemma_stage_t(h as int, t as int, n as int);
                assert(h as nat * 2 == m);
            }
            proof {
                assert(2 * t <= n) by (nonlinear_arith)
                    requires
                        h * (2 * t) == n,
                        h >= 1,
                ;
            }
            t = t * 2;
            m = m / 2;
            proof {
                lm = (lm - 1) as nat;
                lemma_pow2_unfold((big_l - lm) as nat);
            }
        }
        let ghost z = u64s(values@);
        proof {
            if lm > 0 {
                lemma_pow2_unfold(lm);
                lemma_pow2_pos((lm - 1) as nat);
            }
            assert(lm == 0);
            lemma_pow2_0();
        }
        for i in 0..n
            invariant
                self.wf(),
                q == self.spec_q(),
                qi == q@,
                n == self.spec_n(),
                values@.len() == n,
                z.len() == n,
                forall|k: int| i <= k < n ==> #[trigger] values@[k] as int == z[k],
                forall|k: int| 0 <= k < i ==> #[trigger] values@[k] as int == (z[k] * self.spec_n_inverse()) % qi,
                forall|k: int| 0 <= k < i ==> #[trigger] values@[k] < qi,
        {
            let x = values[i];
            proof {
                lemma_mod_bound(x as int * self.n_inverse as int, qi);
            }
            values[i] = q.mul(x, self.n_inverse);
        }
        proof {
            assert(u64s(values@) =~= self.inverse_spec(y0));
        }
    }

    /// Negacyclic product of two polynomials in `R_q`, through the transform.
    pub fn mul(&self, a: &Poly, b: &Poly) -> (r: Poly)
        requires
            self.wf(),
            a.coeffs@.len() == self.spec_n(),
            b.coeffs@.len() == self.spec_n(),
            self.forward_fits(u64s(a.coeffs@)),
            self.forward_fits(u64s(b.coeffs@)),
        ensures
            r.coeffs@.len() == self.spec_n(),
            reduced(r.coeffs@, self.spec_q()@),
            u64s(r.coeffs@) == self.mul_spec(u64s(a.coeffs@), u64s(b.coeffs@)),
    {
        let mut fa = a.coeffs.clone();
        let mut fb = b.coeffs.clone();
        proof {
            assert(fa@ =~= a.coeffs@);
            assert(fb@ =~= b.coeffs@);
        }
        self.forward(fa.as_mut_slice());
        self.forward(fb.as_mut_slice());
        let ghost ya = u64s(fa@);
        let n = self.n;
        for i in 0..n
            invariant
                self.wf(),
                n == self.spec_n(),
                fa@.len() == n,
                fb@.len() == n,
                ya.len() == n,
                forall|k: int| i <= k < n ==> #[trigger] fa@[k] as int == ya[k],
                forall|k: int|
                    0 <= k < i ==> #[trigger] fa@[k] as int == (ya[k] * fb@[k]) % self.spec_q()@,
                forall|k: int| 0 <= k < i ==> #[trigger] fa@[k] < self.spec_q()@,
        {
            let x = fa[i];
            proof {
                lemma_mod_bound(x as int * fb@[i as int] as int, self.spec_q()@);
            }
            let p = self.q.mul(x, fb[i]);
            fa.set(i, p);
        }
        proof {
            assert(u64s(fa@) =~= pointwise(ya, u64s(fb@), self.spec_q()@));
            lemma_residues_inverse_fits(*self, u64s(fa@));
        }
        self.inverse(fa.as_mut_slice());
        Poly::from_coeffs(fa)
    }

    /// The tables for degree `n` and modulus `q`, or `None` exactly where
    /// `new` cannot build them: `n` not a power of two, `q ≢ 1 (mod 2n)`, or
    /// no primitive `2n`-th root of unity found.
    pub fn try_new(n: usize, q: Modulus) -> (r: Option<NttTables>)
        requires
            q.wf(),
        ensures
            r is Some <==> (is_pow2(n as nat) && (q@ - 1) % (2 * n) == 0 && primitive_root_spec(
                2 * n,
                q@,
            ) is Some),
            r matches Some(t) ==> t.wf() && t.spec_n() == n && t.spec_q() == q && t.spec_psi()
                == primitive_root_spec(2 * n, q@)->0,
    {
        if !crate::params::is_power_of_two(n) {
            return None;
        }
        let modulus = q.value();
        if n as u64 > (modulus - 1) / 2 {
            proof {
                assert((q@ - 1) % (2 * n) == q@ - 1) by {
                    lemma_small_mod((q@ - 1) as nat, (2 * n) as nat);
                }
            }
            return None;
        }
        let order = 2 * n as u64;
        if (modulus - 1) % order != 0 {
            return None;
        }
        match primitive_root_of_unity(order, q) {
            Some(_) => Some(NttTables::new(n, q)),
            None => None,
        }
    }

    pub fn n(&self) -> (r: usize)
        ensures
            r == self.spec_n(),
    {
        self.n
    }

    pub fn modulus(&self) -> (r: Modulus)
        ensures
            r == self.spec_q(),
    {
        self.q
    }
}

/// The base-2 logarithm, rounded down (0 for 0 and 1).
pub open spec fn log2_spec(n: nat) -> nat
    decreases n,
{
    if n <= 1 {
        0
    } else {
        1 + log2_spec(n / 2)
    }
}

/// `log2(n)` for a power of two `n`.
fn log2(n: usize) -> (r: u32)
    requires
        is_pow2(n as nat),
    ensures
        pow2(r as nat) == n,
        r == log2_spec(n as nat),
        r < 64,
{
    let mut x = n;
    let mut r: u32 = 0;
    proof {
        lemma2_to64();
    }
    while x > 1
        invariant
            is_pow2(x as nat),
            pow2(r as nat) * x == n,
            r + log2_spec(x as nat) == log2_spec(n as nat),
            r + (x as nat) <= n,
            r < 64,
            x >= 1,
        decreases x,
    {
        proof {
            lemma_pow2_unfold((r + 1) as nat);
            lemma_mul_is_associative(2, pow2(r as nat) as int, (x / 2) as int);
            assert(x == 2 * (x / 2));
            lemma_mul_is_commutative(2, pow2(r as nat) as int);
            lemma_mul_is_associative(pow2(r as nat) as int, 2, (x / 2) as int);
        }
        x = x / 2;
        r = r + 1;
        proof {
            lemma_pow2_pos(r as nat);
            if r >= 64 {
                lemma2_to64_rest();
                if r > 64 {
                    lemma_pow2_strictly_increases(64, r as nat);
                }
                lemma_mul_increases(x as int, pow2(r as nat) as int);
                lemma_mul_is_commutative(x as int, pow2(r as nat) as int);
                assert(n <= usize::MAX);
            }
        }
    }
    proof {
        assert(x == 1);
    }
    r
}

/// `index` with its low `bits` bits reversed.
fn bit_reverse(index: usize, bits: u32) -> (r: usize)
    requires
        pow2(bits as nat) <= usize::MAX,
        index < pow2(bits as nat),
    ensures
        r == brv(index as nat, bits as nat),
{
    let mut out: usize = 0;
    let mut rest = index;
    let mut k: u32 = 0;
    proof {
        lemma_pow2_0();
        lemma_small_mod(0, 1);
    }
    while k < bits
        invariant
            k <= bits,
            pow2(bits as nat) <= usize::MAX,
            index < pow2(bits as nat),
            out == brv((index as nat) % pow2(k as nat), k as nat),
            out < pow2(k as nat),
            rest == (index as nat) / pow2(k as nat),
        decreases bits - k,
    {
        proof {
            lemma_brv_low_step(index as nat, k as nat);
            lemma_pow2_unfold((k + 1) as nat);
            if k + 1 < bits {
                lemma_pow2_strictly_increases((k + 1) as nat, bits as nat);
            }
            lemma_div_denominator(index as int, pow2(k as nat) as int, 2);
            lemma_mul_is_commutative(pow2(k as nat) as int, 2);
        }
        out = 2 * out + rest % 2;
        rest = rest / 2;
        k = k + 1;
    }
    proof {
        lemma_small_mod(index as nat, pow2(bits as nat));
    }
    out
}

/// `n` zeros.
fn vec_of_zeros(n: usize) -> (v: Vec<u64>)
    ensures
        v@ == Seq::new(n as nat, |i: int| 0u64),
{
    let mut v: Vec<u64> = Vec::with_capacity(n);
    for i in 0..n
        invariant
            v@ == Seq::new(i as nat, |k: int| 0u64),
    {
        v.push(0);
    }
    v
}

/// Find a primitive `order`-th root of unity modulo `q`: try `g = 2, 3, …`,
/// raise each to `(q-1)/order`, and keep the first power whose order is
/// exactly `order` rather than a proper divisor of it.
fn primitive_root_of_unity(order: u64, q: Modulus) -> (r: Option<u64>)
    requires
        q.wf(),
        order > 0,
    ensures
        r == primitive_root_spec(order as int, q@),
{
    let modulus = q.value();
    if (modulus - 1) % order != 0 {
        return None;
    }
    let exponent = (modulus - 1) / order;
    let mut candidate: u64 = 2;
    while candidate < 1000
        invariant
            q.wf(),
            modulus == q@,
            order > 0,
            exponent == (q@ - 1) / (order as int),
            (q@ - 1) % (order as int) == 0,
            2 <= candidate <= 1000,
            root_search(order as int, q@, candidate as int) == root_search(order as int, q@, 2),
        decreases 1000 - candidate,
    {
        let root = q.pow(candidate, exponent);
        if root > 1 && q.pow(root, order) == 1 && order_is_exact(root, order, &q) {
            proof {
                assert(is_primitive_root(root as int, order as int, q@));
                assert(root_search(order as int, q@, candidate as int) == Some(root));
            }
            return Some(root);
        }
        candidate = candidate + 1;
    }
    None
}

/// For every prime `p` dividing `order`, `root^(order/p) ≢ 1 (mod q)`: trial
/// division finds each prime factor once.
fn order_is_exact(root: u64, order: u64, q: &Modulus) -> (ok: bool)
    requires
        q.wf(),
        order >= 1,
    ensures
        ok == (forall|p: int|
            is_prime(p) && #[trigger] ((order as int) % p) == 0 ==> pow(
                root as int,
                ((order as int) / p) as nat,
            ) % q@ != 1),
{
    let mut divisor: u64 = 2;
    let mut remaining: u64 = order;
    while divisor <= remaining / divisor
        invariant
            q.wf(),
            2 <= divisor,
            1 <= remaining <= order,
            (order as int) % (remaining as int) == 0,
            forall|p: int| is_prime(p) && p < divisor ==> #[trigger] ((remaining as int) % p) != 0,
            forall|p: int|
                is_prime(p) && p >= divisor && #[trigger] ((order as int) % p) == 0 ==> (
                remaining as int) % p == 0,
            forall|p: int|
                is_prime(p) && p < divisor && #[trigger] ((order as int) % p) == 0 ==> pow(
                    root as int,
                    ((order as int) / p) as nat,
                ) % q@ != 1,
        decreases order - divisor,
    {
        proof {
            lemma_div_bound_le(remaining as int, divisor as int);
            assert(divisor < order) by (nonlinear_arith)
                requires
                    divisor * divisor <= remaining,
                    remaining <= order,
                    divisor >= 2,
            ;
        }
        if remaining % divisor == 0 {
            proof {
                lemma_least_factor_prime(divisor as int, remaining as int);
                lemma_divides_trans(divisor as int, remaining as int, order as int);
            }
            if q.pow(root, order / divisor) == 1 {
                return false;
            }
            while remaining % divisor == 0
                invariant
                    q.wf(),
                    is_prime(divisor as int),
                    1 <= remaining <= order,
                    (order as int) % (remaining as int) == 0,
                    forall|p: int|
                        is_prime(p) && p < divisor ==> #[trigger] ((remaining as int) % p) != 0,
                    forall|p: int|
                        is_prime(p) && p > divisor && #[trigger] ((order as int) % p) == 0 ==> (
                        remaining as int) % p == 0,
                decreases remaining,
            {
                proof {
                    lemma_divide_out(remaining as int, divisor as int, order as int);
                }
                remaining = remaining / divisor;
            }
        }
        divisor = divisor + 1;
    }
    proof {
        lemma_div_bound_le(remaining as int, divisor as int);
        if remaining > 1 {
            lemma_no_small_factor_prime(remaining as int, divisor as int);
        }
    }
    if remaining > 1 && q.pow(root, order / remaining) == 1 {
        return false;
    }
    proof {
        assert forall|p: int|
            is_prime(p) && #[trigger] ((order as int) % p) == 0 implies pow(
            root as int,
            ((order as int) / p) as nat,
        ) % q@ != 1 by {
            if p >= divisor {
                assert((remaining as int) % p == 0);
                if remaining == 1 {
                    lemma_small_mod(1, p as nat);
                    assert(false);
                } else {
                    lemma_prime_divides_prime(p, remaining as int);
                }
            }
        }
    }
    true
}

/// A positive multiple of `d` is at least `d`.
proof fn lemma_mod_multiples_vanish_le(x: int, d: int)
    requires
        x > 0,
        d > 0,
        x % d == 0,
    ensures
        x >= d,
{
    lemma_fundamental_div_mod(x, d);
    let k = x / d;
    assert(k >= 1) by (nonlinear_arith)
        requires
            x == d * k,
            x > 0,
            d > 0,
    ;
    lemma_mul_inequality(1, k, d);
    lemma_mul_is_commutative(k, d);
}

/// Whatever the root search returns is a primitive root below `q`.
proof fn lemma_root_search_sound(order: int, q: int, c: int)
    requires
        1 < q <= u64::MAX,
    ensures
        root_search(order, q, c) matches Some(r) ==> is_primitive_root(r as int, order, q) && (r
            as int) < q,
    decreases 1000 - c,
{
    if c < 1000 {
        let r = pow(c, ((q - 1) / order) as nat) % q;
        lemma_mod_bound(pow(c, ((q - 1) / order) as nat), q);
        if !is_primitive_root(r, order, q) {
            lemma_root_search_sound(order, q, c + 1);
        }
    }
}

/// `brv(x, bits) < 2^bits`.
pub proof fn lemma_brv_bound(x: nat, bits: nat)
    ensures
        brv(x, bits) < pow2(bits),
    decreases bits,
{
    if bits == 0 {
        lemma_pow2_0();
    } else {
        let b = (bits - 1) as nat;
        lemma_brv_bound(x / 2, b);
        lemma_pow2_unfold(bits);
        let bit = x % 2;
        let p = pow2(b);
        assert(bit * p <= p) by (nonlinear_arith)
            requires
                bit <= 1,
        ;
    }
}

/// Reversing `bits + 1` bits of `y < 2^bits` is reversing `bits` bits and
/// shifting left once.
pub proof fn lemma_brv_extend(y: nat, bits: nat)
    requires
        y < pow2(bits),
    ensures
        brv(y, bits + 1) == 2 * brv(y, bits),
    decreases bits,
{
    if bits == 0 {
        lemma_pow2_0();
        assert(y == 0);
        assert(brv(0, 1) == 0);
    } else {
        let b = (bits - 1) as nat;
        lemma_pow2_unfold(bits);
        lemma_pow2_unfold(bits + 1);
        lemma_brv_extend(y / 2, b);
        let bit = y % 2;
        let p = pow2(b);
        assert(bit * (2 * p) == 2 * (bit * p)) by (nonlinear_arith);
        assert(brv(y, bits + 1) == bit * pow2(bits) + brv(y / 2, bits));
        assert(brv(y, bits) == bit * p + brv(y / 2, b));
    }
}

/// Reversing `k + 1` low bits: the first `k` reversed and shifted, then bit `k`.
proof fn lemma_brv_low_step(x: nat, k: nat)
    ensures
        brv(x % pow2(k + 1), k + 1) == 2 * brv(x % pow2(k), k) + (x / pow2(k)) % 2,
    decreases k,
{
    lemma_pow2_pos(k);
    lemma_pow2_unfold(k + 1);
    if k == 0 {
        lemma_pow2_0();
        assert(x % 1 == 0);
        assert(x / 1 == x);
        assert(brv(0, 0) == 0);
        let y = x % 2;
        assert(brv(y, 1) == (y % 2) * pow2(0) + brv(y / 2, 0));
        lemma_mod_twice(x as int, 2);
    } else {
        let km = (k - 1) as nat;
        lemma_pow2_unfold(k);
        lemma_mod_mod_pow2(x, k);
        lemma_brv_low_step(x / 2, km);
        lemma_div_mod_pow2_shift(x, k);
        let bit = x % 2;
        let p = pow2(km);
        let y = x % pow2(k + 1);
        let z = x % pow2(k);
        // unfold both reversals one level
        assert(brv(y, k + 1) == (y % 2) * pow2(k) + brv(y / 2, k));
        assert(brv(z, k) == (z % 2) * p + brv(z / 2, km));
        assert(bit * (2 * p) == 2 * (bit * p)) by (nonlinear_arith);
        let w = x / 2;
        assert(brv(w % pow2(k), k) == 2 * brv(w % p, km) + (w / p) % 2);
        assert(y % 2 == bit && y / 2 == w % pow2(k));
        assert(z % 2 == bit && z / 2 == w % p);
        assert(brv(y, k + 1) == bit * (2 * p) + 2 * brv(w % p, km) + (w / p) % 2);
        assert(2 * brv(z, k) == 2 * (bit * p) + 2 * brv(w % p, km));
        assert((x / pow2(k)) % 2 == (w / p) % 2);
    }
}

/// `(x % 2^(k+1)) % 2 == x % 2` and `(x % 2^(k+1)) / 2 == (x / 2) % 2^k`, and
/// the same one level down.
proof fn lemma_mod_mod_pow2(x: nat, k: nat)
    requires
        k > 0,
    ensures
        (x % pow2(k + 1)) % 2 == x % 2,
        (x % pow2(k + 1)) / 2 == (x / 2) % pow2(k),
        (x % pow2(k)) % 2 == x % 2,
        (x % pow2(k)) / 2 == (x / 2) % pow2((k - 1) as nat),
{
    lemma_pow2_unfold(k + 1);
    lemma_pow2_unfold(k);
    lemma_pow2_pos(k);
    lemma_pow2_pos((k - 1) as nat);
    lemma_mod_mod(x as int, 2, pow2(k) as int);
    lemma_mod_mod(x as int, 2, pow2((k - 1) as nat) as int);
    lemma_mod_halves(x as int, pow2(k) as int);
    lemma_mod_halves(x as int, pow2((k - 1) as nat) as int);
}

/// `(x % 2m) / 2 == (x / 2) % m`.
proof fn lemma_mod_halves(x: int, m: int)
    requires
        x >= 0,
        m > 0,
    ensures
        (x % (2 * m)) / 2 == (x / 2) % m,
{
    lemma_fundamental_div_mod(x, 2 * m);
    lemma_mod_bound(x, 2 * m);
    let a = x / (2 * m);
    let r = x % (2 * m);
    lemma_fundamental_div_mod(r, 2);
    lemma_mod_bound(r, 2);
    let r1 = r / 2;
    let r0 = r % 2;
    assert(x == 2 * (m * a + r1) + r0) by (nonlinear_arith)
        requires
            x == (2 * m) * a + r,
            r == 2 * r1 + r0,
    ;
    lemma_fundamental_div_mod_converse(x, 2, m * a + r1, r0);
    assert(0 <= r1 < m) by (nonlinear_arith)
        requires
            r == 2 * r1 + r0,
            0 <= r < 2 * m,
            0 <= r0 < 2,
    ;
    lemma_fundamental_div_mod_converse(x / 2, m, a, r1);
}

/// The bit of `x` at position `k` seen one level down.
proof fn lemma_div_mod_pow2_shift(x: nat, k: nat)
    requires
        k > 0,
    ensures
        (x / pow2(k)) % 2 == ((x / 2) / pow2((k - 1) as nat)) % 2,
{
    lemma_pow2_unfold(k);
    lemma_pow2_pos((k - 1) as nat);
    lemma_div_denominator(x as int, 2, pow2((k - 1) as nat) as int);
}

/// The top bit of `x < 2^bits` becomes the low bit of its reversal.
proof fn lemma_brv_high(x: nat, bits: nat)
    requires
        bits > 0,
        x < pow2(bits),
    ensures
        brv(x, bits) == 2 * brv(x % pow2((bits - 1) as nat), (bits - 1) as nat) + x / pow2(
            (bits - 1) as nat,
        ),
    decreases bits,
{
    lemma_pow2_unfold(bits);
    lemma_pow2_pos((bits - 1) as nat);
    if bits == 1 {
        lemma_pow2_0();
        assert(x % 1 == 0);
        assert(x / 1 == x);
        assert(x < 2);
        assert(brv(0, 0) == 0);
        assert(brv(x, 1) == (x % 2) * pow2(0) + brv(x / 2, 0));
    } else {
        let b = (bits - 1) as nat;
        let bm = (b - 1) as nat;
        lemma_pow2_unfold(b);
        lemma_pow2_pos(bm);
        lemma_div_bound_pow2(x, bits);
        lemma_brv_high(x / 2, b);
        lemma_mod_mod_pow2(x, b);
        lemma_div_denominator(x as int, 2, pow2(bm) as int);
        let bit = x % 2;
        let p = pow2(bm);
        let z = x % pow2(b);
        assert(brv(x, bits) == bit * pow2(b) + brv(x / 2, b));
        assert(brv(z, b) == (z % 2) * p + brv(z / 2, bm));
        assert(bit * (2 * p) == 2 * (bit * p)) by (nonlinear_arith);
    }
}

/// `x < 2^bits` gives `x / 2 < 2^(bits-1)`.
proof fn lemma_div_bound_pow2(x: nat, bits: nat)
    requires
        bits > 0,
        x < pow2(bits),
    ensures
        x / 2 < pow2((bits - 1) as nat),
{
    lemma_pow2_unfold(bits);
}

/// Bit reversal undoes itself on `bits`-bit numbers.
pub proof fn lemma_brv_involution(x: nat, bits: nat)
    requires
        x < pow2(bits),
    ensures
        brv(brv(x, bits), bits) == x,
    decreases bits,
{
    if bits == 0 {
        lemma_pow2_0();
    } else {
        let b = (bits - 1) as nat;
        let y = brv(x, bits);
        lemma_pow2_unfold(bits);
        lemma_brv_bound(x / 2, b);
        lemma_brv_bound(x, bits);
        // y = (x % 2)·2^b + brv(x/2, b), with brv(x/2, b) < 2^b
        lemma_fundamental_div_mod_converse(y as int, pow2(b) as int, (x % 2) as int, brv(x / 2, b) as int);
        lemma_brv_high(y, bits);
        lemma_brv_involution(x / 2, b);
        assert(x == 2 * (x / 2) + x % 2);
    }
}

/// One more power: `(b^i mod q)·b mod q == b^(i+1) mod q`.
proof fn lemma_pow_step_mod(b: int, i: nat, q: int)
    requires
        q > 0,
    ensures
        ((pow(b, i) % q) * b) % q == pow(b, i + 1) % q,
{
    lemma_mul_mod_noop_left(pow(b, i), b, q);
    lemma_pow_adds(b, i, 1);
    lemma_pow1(b);
}

/// `d ≤ r / d` gives `d·d ≤ r`.
proof fn lemma_div_bound_le(r: int, d: int)
    requires
        d > 0,
        r >= 0,
    ensures
        d <= r / d ==> d * d <= r,
        d > r / d ==> d * d > r,
{
    lemma_fundamental_div_mod(r, d);
    lemma_mod_bound(r, d);
    let k = r / d;
    assert(d <= k ==> d * d <= r) by (nonlinear_arith)
        requires
            r == d * k + r % d,
            0 <= r % d,
            d > 0,
    ;
    assert(d > k ==> d * d > r) by (nonlinear_arith)
        requires
            r == d * k + r % d,
            r % d < d,
            d > 0,
    ;
}

/// On residues a forward stage is plain arithmetic modulo `q`:
/// `(x[j] + w·x[j+t]) mod q` and `(x[j] - w·x[j+t]) mod q`.
pub proof fn lemma_fwd_stage_entry(x: Seq<int>, w: Seq<u64>, m: int, t: int, q: int, idx: int)
    requires
        q > 1,
        t >= 1,
        0 <= idx < x.len(),
        forall|i: int| 0 <= i < x.len() ==> 0 <= #[trigger] x[i] < q,
        idx % (2 * t) < t ==> idx + t < x.len(),
        idx % (2 * t) >= t ==> idx - t >= 0,
    ensures
        ({
            let s = w[m + idx / (2 * t)] as int;
            let y = fwd_stage(x, w, m, t, q);
            &&& idx % (2 * t) < t ==> y[idx] == (x[idx] + x[idx + t] * s) % q
            &&& idx % (2 * t) >= t ==> y[idx] == (x[idx - t] - x[idx] * s) % q
            &&& 0 <= y[idx] < q
        }),
{
    let s = w[m + idx / (2 * t)] as int;
    if idx % (2 * t) < t {
        let p = x[idx + t] * s;
        lemma_mod_bound(p, q);
        crate::modulus::lemma_add_once(x[idx], p % q, q);
        lemma_add_mod_noop_right(x[idx], p, q);
    } else {
        let p = x[idx] * s;
        lemma_mod_bound(p, q);
        crate::modulus::lemma_sub_once(x[idx - t], p % q, q);
        lemma_sub_mod_noop_right(x[idx - t], p, q);
    }
}

/// Inverse stage `2^k` runs inside `u64` when all the inverse stages from
/// `2^k0` do, `k0 <= k`.
proof fn lemma_inv_fits_at(y: Seq<int>, w: Seq<u64>, k0: nat, k: nat, big_l: nat, q: int)
    requires
        k0 <= k < big_l,
        inv_fits_from(y, w, pow2(k0), pow2(big_l), q),
    ensures
        inv_stage_fits(
            inv_from(y, w, pow2(k + 1), pow2(big_l), q),
            w,
            pow2(k) as int,
            pow2((big_l - k - 1) as nat) as int,
            q,
        ),
    decreases k - k0,
{
    let n = pow2(big_l);
    let m = pow2(k0);
    lemma_pow2_pos(k0);
    lemma_stage_sizes(k0, big_l);
    lemma_pow2_unfold(k0 + 1);
    lemma_pow2_pos((big_l - k0 - 1) as nat);
    let t = pow2((big_l - k0 - 1) as nat);
    lemma_stage_t(m as int, t as int, n as int);
    assert(m < n) by (nonlinear_arith)
        requires
            m * (2 * t) == n,
            t >= 1,
            m >= 1,
    ;
    if k0 < k {
        lemma_inv_fits_at(y, w, k0 + 1, k, big_l, q);
    }
}

/// The first of the forward stages from `m` runs inside `u64`, and so do the
/// stages after it.
proof fn lemma_fwd_fits_step(x: Seq<int>, w: Seq<u64>, m: int, t: int, n: int, q: int)
    requires
        m >= 1,
        t >= 1,
        m * (2 * t) == n,
        fwd_fits_from(x, w, m as nat, n as nat, q),
    ensures
        fwd_stage_fits(x, w, m, t, q),
        fwd_fits_from(fwd_stage(x, w, m, t, q), w, 2 * m as nat, n as nat, q),
{
    lemma_stage_t(m, t, n);
    assert(m < n) by (nonlinear_arith)
        requires
            m * (2 * t) == n,
            t >= 1,
            m >= 1,
    ;
}

/// Halving through the stages: `2^lm < 2^L` gives `lm < L`, an even
/// `t = 2^(L-lm)` with `t/2 = 2^(L-lm-1)`, and `2^lm · 2^(L-lm) = 2^L`.
proof fn lemma_stage_sizes(lm: nat, big_l: nat)
    requires
        lm <= big_l,
    ensures
        pow2(lm) * pow2((big_l - lm) as nat) == pow2(big_l),
        pow2(lm) < pow2(big_l) ==> lm < big_l,
        lm < big_l ==> pow2((big_l - lm) as nat) / 2 == pow2((big_l - lm - 1) as nat) && pow2(
            (big_l - lm) as nat,
        ) == 2 * pow2((big_l - lm - 1) as nat) && pow2((lm + 1) as nat) * pow2(
            (big_l - lm - 1) as nat,
        ) == pow2(big_l),
{
    lemma_pow2_adds(lm, (big_l - lm) as nat);
    if lm < big_l {
        lemma_pow2_unfold((big_l - lm) as nat);
        lemma_pow2_adds(lm + 1, (big_l - lm - 1) as nat);
    }
}

/// With `m` blocks of length `2t` filling `n`, stage `m` uses `t = n/(2m)`.
proof fn lemma_stage_t(m: int, t: int, n: int)
    requires
        m >= 1,
        t >= 1,
        m * (2 * t) == n,
    ensures
        n / (2 * m) == t,
{
    assert(n == (2 * m) * t) by (nonlinear_arith)
        requires
            m * (2 * t) == n,
    ;
    lemma_div_multiples_vanish(t, 2 * m);
}

/// The two positions of pair `o` in block `i`: `(2t)·i + o` and
/// `(2t)·i + o + t`.
pub proof fn lemma_pair_index(i: int, o: int, t: int)
    requires
        i >= 0,
        0 <= o < t,
    ensures
        (2 * t * i + o) / (2 * t) == i,
        (2 * t * i + o) % (2 * t) == o,
        (2 * t * i + o + t) / (2 * t) == i,
        (2 * t * i + o + t) % (2 * t) == o + t,
{
    assert(2 * t * i == i * (2 * t)) by (nonlinear_arith);
    lemma_fundamental_div_mod_converse(2 * t * i + o, 2 * t, i, o);
    lemma_fundamental_div_mod_converse(2 * t * i + o + t, 2 * t, i, o + t);
}

/// Marking pair `d` of block `i` done changes the status of exactly its two
/// positions.
proof fn lemma_pair_done_step(idx: int, i: int, d: int, t: int)
    requires
        idx >= 0,
        i >= 0,
        0 <= d < t,
    ensures
        pair_done(idx, i, d + 1, t) == (pair_done(idx, i, d, t) || idx == 2 * t * i + d || idx
            == 2 * t * i + d + t),
{
    lemma_fundamental_div_mod(idx, 2 * t);
    lemma_mod_bound(idx, 2 * t);
    lemma_pair_index(i, d, t);
    let b = idx / (2 * t);
    let o = idx % (2 * t);
    if b == i && o == d {
        assert(idx == 2 * t * i + d) by {
            lemma_mul_is_commutative(2 * t, i);
        }
    }
    if b == i && o == d + t {
        assert(idx == 2 * t * i + d + t) by {
            lemma_mul_is_commutative(2 * t, i);
        }
    }
}

/// Every index below `m·2t` lies in one of the `m` blocks.
proof fn lemma_block_of_index(idx: int, m: int, t: int)
    requires
        0 <= idx < m * (2 * t),
        t >= 1,
    ensures
        idx / (2 * t) < m,
{
    lemma_fundamental_div_mod(idx, 2 * t);
    lemma_mod_bound(idx, 2 * t);
    let b = idx / (2 * t);
    assert(b < m) by (nonlinear_arith)
        requires
            idx == (2 * t) * b + idx % (2 * t),
            0 <= idx % (2 * t),
            idx < m * (2 * t),
            t >= 1,
    ;
}

} // verus!
