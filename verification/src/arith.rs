//! Number theory over the integers that the modular code rests on.

use vstd::arithmetic::div_mod::*;
use vstd::arithmetic::mul::*;
use vstd::arithmetic::power::*;
use vstd::arithmetic::power2::*;
use vstd::prelude::*;

verus! {

/// `n` is a prime number.
pub open spec fn is_prime(n: int) -> bool {
    &&& n > 1
    &&& forall|d: int| 1 < d < n ==> #[trigger] (n % d) != 0
}

/// One step of square-and-multiply: `b^e` splits into the low bit and the
/// square of `b` raised to `e / 2`.
pub proof fn lemma_pow_halving(b: int, e: nat)
    ensures
        pow(b, e) == pow(b * b, e / 2) * (if e % 2 == 1 { b } else { 1 }),
{
    let k = e / 2;
    lemma_pow_multiplies(b, 2, k);
    lemma_square_is_pow2(b);
    lemma_pow_adds(b, 2 * k, (e % 2) as nat);
    lemma_pow0(b);
    lemma_pow1(b);
}

/// Congruent bases give congruent powers.
pub proof fn lemma_pow_congruent(a: int, b: int, e: nat, m: int)
    requires
        m > 0,
        a % m == b % m,
    ensures
        pow(a, e) % m == pow(b, e) % m,
{
    lemma_pow_mod_noop(a, e, m);
    lemma_pow_mod_noop(b, e, m);
}

/// The invariant step of square-and-multiply modulo `m`.
pub proof fn lemma_square_multiply_step(acc: int, b: int, e: nat, m: int)
    requires
        m > 0,
    ensures
        ((if e % 2 == 1 { (acc * b) % m } else { acc }) * pow((b * b) % m, e / 2)) % m
            == (acc * pow(b, e)) % m,
{
    let bit = if e % 2 == 1 { b } else { 1 };
    let p = pow(b * b, e / 2);
    lemma_pow_halving(b, e);
    lemma_pow_mod_noop(b * b, e / 2, m);
    let pm = pow((b * b) % m, e / 2);
    // pm == p (mod m)
    assert(pm % m == p % m);
    let new_acc = if e % 2 == 1 { (acc * b) % m } else { acc };
    // new_acc == acc * bit (mod m)
    assert(new_acc % m == (acc * bit) % m) by {
        if e % 2 == 1 {
            lemma_mod_twice(acc * b, m);
        } else {
            lemma_mul_basics(acc);
        }
    }
    assert((new_acc * pm) % m == ((acc * bit) * p) % m) by {
        lemma_mul_mod_noop_general(new_acc, pm, m);
        lemma_mul_mod_noop_general(acc * bit, p, m);
    }
    assert((acc * bit) * p == acc * (p * bit)) by {
        lemma_mul_is_associative(acc, bit, p);
        lemma_mul_is_commutative(bit, p);
    }
}

/// The odd part of `x`: `x` with every factor 2 divided out (0 stays 0).
pub open spec fn odd_part(x: nat) -> nat
    decreases x,
{
    if x > 0 && x % 2 == 0 {
        odd_part(x / 2)
    } else {
        x
    }
}

/// How many times 2 divides `x` (0 for `x == 0`).
pub open spec fn two_adic(x: nat) -> nat
    decreases x,
{
    if x > 0 && x % 2 == 0 {
        1 + two_adic(x / 2)
    } else {
        0
    }
}

/// `n` is a strong probable prime to base `a`: with `n - 1 = 2^r · d`, `d`
/// odd, either `a^d ≡ 1` or `a^(2^i·d) ≡ -1 (mod n)` for some `i < r`.
pub open spec fn strong_probable_prime(n: int, a: int) -> bool {
    let d = odd_part((n - 1) as nat);
    let r = two_adic((n - 1) as nat);
    ||| pow(a, d) % n == 1
    ||| exists|i: nat| i < r && #[trigger] pow(a, d * pow2(i)) % n == n - 1
}

/// `x = 2^two_adic(x) · odd_part(x)`, and the odd part is odd when `x > 0`.
pub proof fn lemma_odd_part(x: nat)
    ensures
        x == pow2(two_adic(x)) * odd_part(x),
        x > 0 ==> odd_part(x) % 2 == 1,
    decreases x,
{
    if x > 0 && x % 2 == 0 {
        lemma_odd_part(x / 2);
        let p = pow2(two_adic(x / 2)) as int;
        let o = odd_part(x / 2) as int;
        assert(two_adic(x) == 1 + two_adic(x / 2));
        assert(odd_part(x) == odd_part(x / 2));
        lemma_pow2_unfold(two_adic(x));
        assert(pow2(two_adic(x)) == 2 * p);
        assert(x == 2 * (x / 2));
        assert((2 * p) * o == 2 * (p * o)) by (nonlinear_arith);
    } else {
        lemma_pow2_0();
        assert(two_adic(x) == 0);
        assert(odd_part(x) == x);
        assert(pow2(0) * x == x);
    }
}

/// `pow2(0) == 1`
pub proof fn lemma_pow2_0()
    ensures
        pow2(0) == 1,
{
    lemma2_to64();
}

/// `n` is a power of two.
pub open spec fn is_pow2(n: nat) -> bool
    decreases n,
{
    if n == 0 {
        false
    } else if n == 1 {
        true
    } else {
        n % 2 == 0 && is_pow2(n / 2)
    }
}

/// `is_pow2(n)` holds exactly for the powers of two `2^k`.
pub proof fn lemma_is_pow2_iff(n: nat)
    ensures
        is_pow2(n) <==> exists|k: nat| n == #[trigger] pow2(k),
    decreases n,
{
    if is_pow2(n) {
        if n == 1 {
            lemma_pow2_0();
        } else {
            lemma_is_pow2_iff(n / 2);
            let k = choose|k: nat| n / 2 == #[trigger] pow2(k);
            lemma_pow2_unfold(k + 1);
            assert(n == pow2(k + 1));
        }
    }
    if exists|k: nat| n == #[trigger] pow2(k) {
        let k = choose|k: nat| n == #[trigger] pow2(k);
        lemma_pow2_pos(k);
        if k == 0 {
            lemma_pow2_0();
        } else {
            lemma_pow2_unfold(k);
            lemma_pow2_pos((k - 1) as nat);
            assert(n / 2 == pow2((k - 1) as nat));
            lemma_is_pow2_iff(n / 2);
        }
    }
}

/// Squaring `a^(d·2^k)` modulo `n` gives `a^(d·2^(k+1))`.
pub proof fn lemma_pow_square_step(a: int, d: nat, k: nat, n: int)
    requires
        n > 0,
    ensures
        ((pow(a, d * pow2(k)) % n) * (pow(a, d * pow2(k)) % n)) % n == pow(a, d * pow2(k + 1))
            % n,
{
    let e = d * pow2(k);
    let x = pow(a, e);
    lemma_mul_mod_noop_general(x, x, n);
    lemma_pow_adds(a, e, e);
    lemma_pow2_unfold(k + 1);
    assert(d * pow2(k + 1) == e + e) by {
        lemma_mul_is_associative(d as int, 2, pow2(k) as int);
        lemma_mul_is_commutative(d as int, 2);
        lemma_mul_is_associative(2, d as int, pow2(k) as int);
    }
}

/// Divisibility is transitive.
pub proof fn lemma_divides_trans(a: int, b: int, c: int)
    requires
        a > 0,
        b > 0,
        b % a == 0,
        c % b == 0,
    ensures
        c % a == 0,
{
    lemma_fundamental_div_mod(b, a);
    lemma_fundamental_div_mod(c, b);
    let k1 = b / a;
    let k2 = c / b;
    assert(c == a * (k1 * k2)) by {
        lemma_mul_is_associative(a, k1, k2);
    }
    lemma_mod_multiples_basic(k1 * k2, a);
    lemma_mul_is_commutative(a, k1 * k2);
}

/// Every integer from 2 up has a prime factor no larger than itself.
pub proof fn lemma_prime_factor(n: int)
    requires
        n >= 2,
    ensures
        exists|p: int| 2 <= p <= n && is_prime(p) && #[trigger] (n % p) == 0,
    decreases n,
{
    if is_prime(n) {
        lemma_mod_self_0(n);
        assert(is_prime(n) && n % n == 0);
    } else {
        let d = choose|d: int| 1 < d < n && #[trigger] (n % d) == 0;
        lemma_prime_factor(d);
        let p = choose|p: int| 2 <= p <= d && is_prime(p) && #[trigger] (d % p) == 0;
        lemma_divides_trans(p, d, n);
        assert(2 <= p <= n && is_prime(p) && n % p == 0);
    }
}

/// Euclid's lemma for a factor already reduced below the prime.
proof fn lemma_euclid_reduced(a: int, b: int, p: int)
    requires
        is_prime(p),
        0 < a < p,
        (a * b) % p == 0,
    ensures
        b % p == 0,
    decreases a,
{
    if a == 1 {
        lemma_mul_basics(b);
    } else {
        let k = p / a;
        let s = p % a;
        lemma_fundamental_div_mod(p, a);
        lemma_mod_bound(p, a);
        assert(s != 0) by {
            assert(1 < a < p);
            assert(p % a != 0);
        }
        // s·b = p·b - k·(a·b), a multiple of p.
        assert(s * b == p * b - k * (a * b)) by (nonlinear_arith)
            requires
                p == a * k + s,
        ;
        lemma_fundamental_div_mod(a * b, p);
        let ab = (a * b) / p;
        assert(s * b == p * (b - k * ab)) by (nonlinear_arith)
            requires
                s * b == p * b - k * (a * b),
                a * b == p * ab + 0,
        ;
        lemma_mod_multiples_basic(b - k * ab, p);
        lemma_mul_is_commutative(p, b - k * ab);
        lemma_euclid_reduced(s, b, p);
    }
}

/// Euclid's lemma: a prime that divides a product divides a factor.
pub proof fn lemma_euclid(a: int, b: int, p: int)
    requires
        is_prime(p),
        (a * b) % p == 0,
    ensures
        a % p == 0 || b % p == 0,
{
    if a % p != 0 {
        lemma_mod_bound(a, p);
        lemma_mul_mod_noop_left(a, b, p);
        lemma_euclid_reduced(a % p, b, p);
    }
}

/// If `d` divides `r` and no smaller prime does, `d` is prime.
pub proof fn lemma_least_factor_prime(d: int, r: int)
    requires
        d >= 2,
        r >= 1,
        r % d == 0,
        forall|p: int| is_prime(p) && p < d ==> #[trigger] (r % p) != 0,
    ensures
        is_prime(d),
{
    lemma_prime_factor(d);
    let p = choose|p: int| 2 <= p <= d && is_prime(p) && #[trigger] (d % p) == 0;
    lemma_divides_trans(p, d, r);
    if p < d {
        assert(r % p != 0);
    }
}

/// A number above 1 with no prime factor below `d`, and below `d²`, is prime.
pub proof fn lemma_no_small_factor_prime(r: int, d: int)
    requires
        r > 1,
        d >= 2,
        d * d > r,
        forall|p: int| is_prime(p) && p < d ==> #[trigger] (r % p) != 0,
    ensures
        is_prime(r),
{
    if !is_prime(r) {
        let e = choose|e: int| 1 < e < r && #[trigger] (r % e) == 0;
        lemma_prime_factor(e);
        let p1 = choose|p: int| 2 <= p <= e && is_prime(p) && #[trigger] (e % p) == 0;
        lemma_divides_trans(p1, e, r);
        assert(p1 >= d);
        lemma_fundamental_div_mod(r, e);
        let k = r / e;
        assert(k >= 2) by (nonlinear_arith)
            requires
                r == e * k + 0,
                1 < e < r,
        ;
        assert(r % k == 0) by {
            lemma_mod_multiples_basic(e, k);
            lemma_mul_is_commutative(e, k);
        }
        lemma_prime_factor(k);
        let p2 = choose|p: int| 2 <= p <= k && is_prime(p) && #[trigger] (k % p) == 0;
        lemma_divides_trans(p2, k, r);
        assert(p2 >= d);
        assert(r >= d * d) by (nonlinear_arith)
            requires
                r == e * k,
                e >= p1,
                k >= p2,
                p1 >= d,
                p2 >= d,
                d >= 2,
        ;
    }
}

/// A prime dividing a prime is that prime.
pub proof fn lemma_prime_divides_prime(p: int, r: int)
    requires
        is_prime(p),
        is_prime(r),
        r % p == 0,
    ensures
        p == r,
{
    if p > r {
        lemma_small_mod(r as nat, p as nat);
    } else if p < r {
        assert(r % p != 0);
    }
}

/// Dividing one factor `d` out of `r` keeps the bookkeeping of trial
/// division: `r/d` still divides `order`, still has no prime factor below
/// `d`, and still holds every prime factor of `order` above `d`.
pub proof fn lemma_divide_out(r: int, d: int, order: int)
    requires
        is_prime(d),
        r >= 1,
        r % d == 0,
        order >= 1,
        order % r == 0,
        forall|p: int| is_prime(p) && p < d ==> #[trigger] (r % p) != 0,
        forall|p: int| is_prime(p) && p > d && #[trigger] (order % p) == 0 ==> r % p == 0,
    ensures
        r / d >= 1,
        r / d < r,
        order % (r / d) == 0,
        forall|p: int| is_prime(p) && p < d ==> #[trigger] ((r / d) % p) != 0,
        forall|p: int| is_prime(p) && p > d && #[trigger] (order % p) == 0 ==> (r / d) % p == 0,
{
    let k = r / d;
    lemma_fundamental_div_mod(r, d);
    assert(r == d * k);
    assert(k >= 1 && k < r) by (nonlinear_arith)
        requires
            r == d * k,
            r >= 1,
            d >= 2,
    ;
    assert(r % k == 0) by {
        lemma_mod_multiples_basic(d, k);
        lemma_mul_is_commutative(d, k);
    }
    lemma_divides_trans(k, r, order);
    assert forall|p: int| is_prime(p) && p < d implies #[trigger] (k % p) != 0 by {
        if k % p == 0 {
            lemma_divides_trans(p, k, r);
        }
    }
    assert forall|p: int| is_prime(p) && p > d && #[trigger] (order % p) == 0 implies k % p
        == 0 by {
        assert(r % p == 0);
        lemma_euclid(d, k, p);
        if d % p == 0 {
            lemma_small_mod(d as nat, p as nat);
        }
    }
}

/// The binomial coefficient `C(n, k)`, by Pascal's rule.
pub open spec fn binom(n: nat, k: nat) -> nat
    decreases n, k,
{
    if k == 0 {
        1
    } else if n == 0 {
        0
    } else {
        binom((n - 1) as nat, (k - 1) as nat) + binom((n - 1) as nat, k)
    }
}

/// `Σ_{k < j} C(n, k)·a^k`.
pub open spec fn binom_sum(n: nat, a: int, j: nat) -> int
    decreases j,
{
    if j == 0 {
        0
    } else {
        binom_sum(n, a, (j - 1) as nat) + binom(n, (j - 1) as nat) * pow(a, (j - 1) as nat)
    }
}

/// `C(n, k) = 0` for `k > n`.
proof fn lemma_binom_above(n: nat, k: nat)
    requires
        k > n,
    ensures
        binom(n, k) == 0,
    decreases n,
{
    if n > 0 {
        lemma_binom_above((n - 1) as nat, (k - 1) as nat);
        lemma_binom_above((n - 1) as nat, k);
    }
}

/// `C(n, n) = 1`.
proof fn lemma_binom_top(n: nat)
    ensures
        binom(n, n) == 1,
    decreases n,
{
    if n > 0 {
        lemma_binom_top((n - 1) as nat);
        lemma_binom_above((n - 1) as nat, n);
    }
}

/// `C(n, 1) = n`.
proof fn lemma_binom_one(n: nat)
    ensures
        binom(n, 1) == n,
    decreases n,
{
    if n > 0 {
        let n1 = (n - 1) as nat;
        lemma_binom_one(n1);
        assert(binom(n, 1) == binom(n1, 0) + binom(n1, 1));
        assert(binom(n1, 0) == 1);
    } else {
        assert(binom(0, 1) == 0);
    }
}

/// Absorption: `k·C(n, k) = n·C(n-1, k-1)`.
proof fn lemma_binom_absorb(n: nat, k: nat)
    requires
        n >= 1,
        k >= 1,
    ensures
        k * binom(n, k) == n * binom((n - 1) as nat, (k - 1) as nat),
    decreases n,
{
    if k == 1 {
        lemma_binom_one(n);
        assert(binom((n - 1) as nat, 0) == 1);
    } else if n == 1 {
        lemma_binom_above(0, (k - 1) as nat);
        lemma_binom_above(1, k);
    } else {
        let n1 = (n - 1) as nat;
        let k1 = (k - 1) as nat;
        lemma_binom_absorb(n1, k1);
        lemma_binom_absorb(n1, k);
        let a = binom(n1, k1);
        let b = binom(n1, k);
        let c = binom((n1 - 1) as nat, (k1 - 1) as nat);
        let d = binom((n1 - 1) as nat, k1);
        assert(binom(n, k) == binom(n1, k1) + binom(n1, k));
        assert(binom(n1, k1) == binom((n1 - 1) as nat, (k1 - 1) as nat) + binom(
            (n1 - 1) as nat,
            k1,
        ));
        if k1 == 1 {
            assert(c == 1);
        }
        assert(k * (a + b) == n * a) by (nonlinear_arith)
            requires
                k1 * a == n1 * c,
                k * b == n1 * d,
                a == c + d,
                k == k1 + 1,
                n == n1 + 1,
        ;
    }
}

/// A prime divides `C(p, k)` for `0 < k < p`.
proof fn lemma_binom_prime(p: nat, k: nat)
    requires
        is_prime(p as int),
        0 < k < p,
    ensures
        binom(p, k) % p == 0,
{
    lemma_binom_absorb(p, k);
    let c = binom((p - 1) as nat, (k - 1) as nat);
    lemma_mod_multiples_basic(c as int, p as int);
    lemma_mul_is_commutative(c as int, p as int);
    lemma_euclid(k as int, binom(p, k) as int, p as int);
    lemma_small_mod(k, p);
}

/// Pascal's rule across a whole partial sum:
/// `S(n+1, a, j+1) = S(n, a, j+1) + a·S(n, a, j)`.
proof fn lemma_binom_sum_pascal(n: nat, a: int, j: nat)
    ensures
        binom_sum(n + 1, a, j + 1) == binom_sum(n, a, j + 1) + a * binom_sum(n, a, j),
    decreases j,
{
    lemma_pow0(a);
    if j == 0 {
        assert(binom_sum(n + 1, a, 1) == binom_sum(n + 1, a, 0) + binom(n + 1, 0) * pow(a, 0));
        assert(binom_sum(n, a, 1) == binom_sum(n, a, 0) + binom(n, 0) * pow(a, 0));
    } else {
        let j1 = (j - 1) as nat;
        lemma_binom_sum_pascal(n, a, j1);
        assert(binom_sum(n + 1, a, j + 1) == binom_sum(n + 1, a, j) + binom(n + 1, j) * pow(a, j));
        assert(binom_sum(n, a, j + 1) == binom_sum(n, a, j) + binom(n, j) * pow(a, j));
        assert(binom_sum(n, a, j) == binom_sum(n, a, j1) + binom(n, j1) * pow(a, j1));
        lemma_pow_adds(a, 1, j1);
        lemma_pow1(a);
        let x = binom(n, j);
        let y = binom(n, j1);
        let pj = pow(a, j);
        let pj1 = pow(a, j1);
        assert(binom(n + 1, j) == binom(n, j1) + binom(n, j));
        assert((x + y) * pj == x * pj + a * (y * pj1)) by (nonlinear_arith)
            requires
                pj == a * pj1,
        ;
        assert(a * (binom_sum(n, a, j1) + y * pj1) == a * binom_sum(n, a, j1) + a * (y * pj1))
            by (nonlinear_arith);
    }
}

/// The binomial theorem with `b = 1`: `(a + 1)^n = Σ_{k ≤ n} C(n, k)·a^k`.
pub proof fn lemma_binomial_theorem(n: nat, a: int)
    ensures
        pow(a + 1, n) == binom_sum(n, a, n + 1),
    decreases n,
{
    lemma_pow0(a);
    lemma_pow0(a + 1);
    if n > 0 {
        let n1 = (n - 1) as nat;
        lemma_binomial_theorem(n1, a);
        lemma_binom_sum_pascal(n1, a, n);
        lemma_binom_above(n1, n);
        lemma_pow_adds(a + 1, 1, n1);
        lemma_pow1(a + 1);
        let s = binom_sum(n1, a, n);
        assert(binom_sum(n1, a, n + 1) == s + binom(n1, n) * pow(a, n));
        assert(binom_sum(n1, a, n + 1) == s);
        assert((a + 1) * s == s + a * s) by (nonlinear_arith);
        assert(pow(a + 1, n) == (a + 1) * pow(a + 1, n1));
    } else {
        assert(binom_sum(0, a, 1) == binom_sum(0, a, 0) + binom(0, 0) * pow(a, 0));
    }
}

/// Modulo a prime `p`, the middle terms of `(a+1)^p` vanish.
proof fn lemma_binom_sum_prime(p: nat, a: int, j: nat)
    requires
        is_prime(p as int),
        1 <= j <= p,
    ensures
        binom_sum(p, a, j) % (p as int) == 1int % (p as int),
    decreases j,
{
    lemma_pow0(a);
    if j == 1 {
        assert(binom_sum(p, a, 1) == binom_sum(p, a, 0) + binom(p, 0) * pow(a, 0));
    } else {
        let j1 = (j - 1) as nat;
        lemma_binom_sum_prime(p, a, j1);
        assert(binom_sum(p, a, j) == binom_sum(p, a, j1) + binom(p, j1) * pow(a, j1));
        lemma_binom_prime(p, j1);
        let b = binom(p, j1) as int;
        let t = b * pow(a, j1);
        assert(t % (p as int) == 0) by {
            lemma_mul_mod_noop_left(b, pow(a, j1), p as int);
            lemma_mul_basics(pow(a, j1));
            lemma_small_mod(0, p);
        }
        lemma_add_mod_noop(binom_sum(p, a, j1), t, p as int);
        lemma_mod_twice(1, p as int);
    }
}

/// Fermat's little theorem: `a^p ≡ a (mod p)` for a prime `p`.
pub proof fn lemma_fermat(a: nat, p: nat)
    requires
        is_prime(p as int),
    ensures
        pow(a as int, p) % (p as int) == (a as int) % (p as int),
    decreases a,
{
    let pi = p as int;
    if a == 0 {
        lemma0_pow(p);
    } else {
        let b = (a - 1) as nat;
        lemma_fermat(b, p);
        lemma_binomial_theorem(p, b as int);
        lemma_binom_sum_prime(p, b as int, p);
        lemma_binom_top(p);
        // (b+1)^p = S(p, b, p) + b^p ≡ 1 + b^p ≡ 1 + b
        assert(binom_sum(p, b as int, p + 1) == binom_sum(p, b as int, p) + binom(p, p) * pow(
            b as int,
            p,
        ));
        assert(binom_sum(p, b as int, p + 1) == binom_sum(p, b as int, p) + pow(b as int, p));
        lemma_add_mod_noop(binom_sum(p, b as int, p), pow(b as int, p), pi);
        lemma_add_mod_noop(1, b as int, pi);
    }
}

/// For a prime `p` not dividing `a`, `a^(p-1) ≡ 1 (mod p)`.
pub proof fn lemma_fermat_unit(a: nat, p: nat)
    requires
        is_prime(p as int),
        (a as int) % (p as int) != 0,
    ensures
        pow(a as int, (p - 1) as nat) % (p as int) == 1,
{
    let pi = p as int;
    let e = pow(a as int, (p - 1) as nat);
    lemma_fermat(a, p);
    lemma_pow_adds(a as int, 1, (p - 1) as nat);
    lemma_pow1(a as int);
    // a·(a^(p-1) - 1) ≡ 0
    assert((a * (e - 1)) % pi == 0) by {
        assert(a * (e - 1) == a * e - a) by (nonlinear_arith);
        lemma_sub_mod_noop(a * e, a as int, pi);
        lemma_mod_self_0(pi);
        lemma_small_mod(0, p);
    }
    lemma_euclid(a as int, e - 1, pi);
    lemma_mod_adds(e - 1, 1, pi);
    lemma_small_mod(1, p);
    lemma_mod_bound(e - 1, pi);
}

/// For a prime `p` not dividing `a`, `a·(a^(p-2) mod p) ≡ 1 (mod p)`: the
/// Fermat inverse is an inverse.
pub proof fn lemma_fermat_inverse(a: nat, p: nat)
    requires
        is_prime(p as int),
        (a as int) % (p as int) != 0,
    ensures
        ((a as int) * (pow(a as int, (p - 2) as nat) % (p as int))) % (p as int) == 1,
{
    let pi = p as int;
    lemma_fermat_unit(a, p);
    lemma_mul_mod_noop_right(a as int, pow(a as int, (p - 2) as nat), pi);
    lemma_pow_adds(a as int, 1, (p - 2) as nat);
    lemma_pow1(a as int);
}

/// For a prime `q`, a square root of 1 is 1 or `q - 1`.
pub proof fn lemma_sqrt_one(y: int, q: int)
    requires
        is_prime(q),
        0 <= y < q,
        (y * y) % q == 1,
    ensures
        y == 1 || y == q - 1,
{
    assert((y - 1) * (y + 1) == y * y - 1) by (nonlinear_arith);
    lemma_sub_mod_noop(y * y, 1, q);
    lemma_small_mod(1, q as nat);
    lemma_mod_self_0(q);
    assert(((y - 1) * (y + 1)) % q == 0) by {
        lemma_small_mod(0, q as nat);
    }
    lemma_euclid(y - 1, y + 1, q);
    if (y - 1) % q == 0 {
        if y == 0 {
            lemma_mod_add_multiples_vanish(-1, q);
            lemma_small_mod((q - 1) as nat, q as nat);
        } else {
            lemma_small_mod((y - 1) as nat, q as nat);
        }
    } else {
        if y == q - 1 {
        } else {
            lemma_small_mod((y + 1) as nat, q as nat);
        }
    }
}

} // verus!
