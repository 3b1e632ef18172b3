//! A small deterministic random number generator, and the distributions RLWE
//! needs.
//!
//! Every experiment has to be reproducible from a seed, so seeding is explicit
//! and the whole stream is a function of it. Not cryptographically secure:
//! never use it for real key material.

use crate::sums::sum;
use vstd::arithmetic::div_mod::*;
use vstd::arithmetic::power2::pow2;
use vstd::prelude::*;

verus! {

/// The exact bound on [`Rng::error`] output: `|e| <= 19`.
pub const ERROR_BOUND: i64 = 19;

/// The SplitMix64 increment.
pub const SPLITMIX_GAMMA: u64 = 0x9E37_79B9_7F4A_7C15;

/// xoshiro256**: four words of state.
#[derive(Clone, Debug)]
pub struct Rng {
    state: [u64; 4],
}

/// `x` rotated left by `k` bits, `0 < k < 64`.
pub open spec fn rotl(x: u64, k: u64) -> u64 {
    (x << k) | (x >> (64 - k) as u64)
}

/// SplitMix64's output mixing of one counter value.
pub open spec fn splitmix_mix(z: u64) -> u64 {
    let x = (z ^ (z >> 30u64)).wrapping_mul(0xBF58_476D_1CE4_E5B9);
    let y = (x ^ (x >> 27u64)).wrapping_mul(0x94D0_49BB_1331_11EB);
    y ^ (y >> 31u64)
}

/// The `i`-th SplitMix64 counter value after `seed` (1-based).
pub open spec fn splitmix_counter(seed: u64, i: nat) -> u64
    decreases i,
{
    if i == 0 {
        seed
    } else {
        splitmix_counter(seed, (i - 1) as nat).wrapping_add(SPLITMIX_GAMMA)
    }
}

/// The state that `seed` expands to: the first four SplitMix64 outputs.
pub open spec fn seeded_state(seed: u64) -> Seq<u64> {
    seq![
        splitmix_mix(splitmix_counter(seed, 1)),
        splitmix_mix(splitmix_counter(seed, 2)),
        splitmix_mix(splitmix_counter(seed, 3)),
        splitmix_mix(splitmix_counter(seed, 4)),
    ]
}

/// The output xoshiro256** draws from state `s`.
pub open spec fn xoshiro_output(s: Seq<u64>) -> u64 {
    rotl(s[1].wrapping_mul(5), 7).wrapping_mul(9)
}

/// The state after one xoshiro256** step from `s`.
pub open spec fn xoshiro_next(s: Seq<u64>) -> Seq<u64> {
    let t = s[1] << 17u64;
    let s2 = s[2] ^ s[0];
    let s3 = s[3] ^ s[1];
    let s1 = s[1] ^ s2;
    let s0 = s[0] ^ s3;
    seq![s0, s1, s2 ^ t, rotl(s3, 45)]
}

/// The state `k` steps after `s`.
pub open spec fn xoshiro_steps(s: Seq<u64>, k: nat) -> Seq<u64>
    decreases k,
{
    if k == 0 {
        s
    } else {
        xoshiro_next(xoshiro_steps(s, (k - 1) as nat))
    }
}

/// The largest multiple of `bound` not above `u64::MAX`, less nothing: draws
/// below it are accepted, so every residue below `bound` is equally likely.
pub open spec fn acceptance_zone(bound: u64) -> u64 {
    (u64::MAX - u64::MAX % bound) as u64
}

/// Why rejection sampling is exact: the accepted draws `[0, zone)` are a
/// whole number `zone / bound` of periods of `bound`, so every residue below
/// `bound` is the remainder of equally many of them; and fewer than `bound`
/// of the `2^64` draws are rejected.
pub proof fn lemma_acceptance_zone(bound: u64)
    requires
        bound > 0,
    ensures
        (acceptance_zone(bound) as int) % (bound as int) == 0,
        acceptance_zone(bound) == (bound as int) * (u64::MAX as int / bound as int),
        u64::MAX + 1 - acceptance_zone(bound) <= bound,
{
    let m = u64::MAX as int;
    let b = bound as int;
    vstd::arithmetic::div_mod::lemma_fundamental_div_mod(m, b);
    vstd::arithmetic::div_mod::lemma_mod_bound(m, b);
    vstd::arithmetic::div_mod::lemma_mod_multiples_basic(m / b, b);
    vstd::arithmetic::mul::lemma_mul_is_commutative(b, m / b);
}

/// How many draws rejection sampling makes at most before it settles for the
/// last one.
pub const MAX_DRAWS: u64 = 0xFFFF_FFFF_FFFF_FFFF;

/// Rejection sampling from state `s` with at most `fuel` more draws after the
/// current one: the accepted value reduced modulo `bound`, and the state after
/// it.
pub open spec fn sample_below(s: Seq<u64>, bound: u64, fuel: nat) -> (Seq<u64>, u64)
    decreases fuel,
{
    let c = xoshiro_output(s);
    if c < acceptance_zone(bound) || fuel == 0 {
        (xoshiro_next(s), (c % bound) as u64)
    } else {
        sample_below(xoshiro_next(s), bound, (fuel - 1) as nat)
    }
}

/// The number of one bits among the low `k` bits of `x`.
pub open spec fn low_ones(x: u64, k: nat) -> int
    decreases k,
{
    if k == 0 {
        0
    } else {
        low_ones(x, (k - 1) as nat) + ((x >> (k - 1) as u64) & 1) as int
    }
}

/// A ternary coefficient from a draw below 3: 0, 1, 2 give -1, 0, +1.
pub open spec fn ternary_of(d: u64) -> i64 {
    if d == 0 {
        -1i64
    } else if d == 1 {
        0i64
    } else {
        1i64
    }
}

impl View for Rng {
    type V = Seq<u64>;

    closed spec fn view(&self) -> Seq<u64> {
        self.state@
    }
}

fn rotate_left(x: u64, k: u64) -> (r: u64)
    requires
        0 < k < 64,
    ensures
        r == rotl(x, k),
{
    (x << k) | (x >> (64 - k))
}

/// One SplitMix64 step: advance the counter and mix it.
fn splitmix_next(z: &mut u64) -> (r: u64)
    ensures
        *final(z) == old(z).wrapping_add(SPLITMIX_GAMMA),
        r == splitmix_mix(*final(z)),
{
    *z = z.wrapping_add(SPLITMIX_GAMMA);
    let mut x = *z;
    x = (x ^ (x >> 30)).wrapping_mul(0xBF58_476D_1CE4_E5B9);
    x = (x ^ (x >> 27)).wrapping_mul(0x94D0_49BB_1331_11EB);
    x ^ (x >> 31)
}

impl Rng {
    /// Spread one seed word across the whole state with SplitMix64.
    pub fn from_seed(seed: u64) -> (r: Rng)
        ensures
            r@ == seeded_state(seed),
    {
        let mut z = seed;
        let a = splitmix_next(&mut z);
        let b = splitmix_next(&mut z);
        let c = splitmix_next(&mut z);
        let d = splitmix_next(&mut z);
        let r = Rng { state: [a, b, c, d] };
        proof {
            reveal_with_fuel(splitmix_counter, 5);
            assert(r@ =~= seeded_state(seed));
        }
        r
    }

    /// The next 64-bit output, and one step of the state.
    pub fn next_u64(&mut self) -> (r: u64)
        ensures
            r == xoshiro_output(old(self)@),
            final(self)@ == xoshiro_next(old(self)@),
    {
        let result = rotate_left(self.state[1].wrapping_mul(5), 7).wrapping_mul(9);
        let t = self.state[1] << 17;
        self.state[2] = self.state[2] ^ self.state[0];
        self.state[3] = self.state[3] ^ self.state[1];
        self.state[1] = self.state[1] ^ self.state[2];
        self.state[0] = self.state[0] ^ self.state[3];
        self.state[2] = self.state[2] ^ t;
        self.state[3] = rotate_left(self.state[3], 45);
        proof {
            assert(self@ =~= xoshiro_next(old(self)@));
        }
        result
    }

    /// Uniform in `[0, bound)`, rejection-sampled so that the distribution is
    /// exact. After `MAX_DRAWS` consecutive rejections (each at most an even
    /// chance) it reduces the last draw instead of drawing again.
    pub fn next_below(&mut self, bound: u64) -> (r: u64)
        requires
            bound > 0,
        ensures
            r < bound,
            (final(self)@, r) == sample_below(old(self)@, bound, MAX_DRAWS as nat),
    {
        let zone = u64::MAX - (u64::MAX % bound);
        let mut fuel: u64 = MAX_DRAWS;
        loop
            invariant
                self@.len() == 4,
                bound > 0,
                zone == acceptance_zone(bound),
                sample_below(self@, bound, fuel as nat) == sample_below(
                    old(self)@,
                    bound,
                    MAX_DRAWS as nat,
                ),
            decreases fuel,
        {
            let ghost before = self@;
            let candidate = self.next_u64();
            if candidate < zone || fuel == 0 {
                return candidate % bound;
            }
            fuel = fuel - 1;
            proof {
                assert(sample_below(before, bound, (fuel + 1) as nat) == sample_below(
                    self@,
                    bound,
                    fuel as nat,
                ));
            }
        }
    }

    /// A ternary secret coefficient: -1, 0 or +1, uniform over the three.
    pub fn ternary(&mut self) -> (r: i64)
        ensures
            r == ternary_of(sample_below(old(self)@, 3, MAX_DRAWS as nat).1),
            final(self)@ == sample_below(old(self)@, 3, MAX_DRAWS as nat).0,
            -1 <= r <= 1,
    {
        let d = self.next_below(3);
        if d == 0 {
            -1
        } else if d == 1 {
            0
        } else {
            1
        }
    }

    /// A small centered error coefficient: the number of ones among the low
    /// 38 bits of one draw, less 19 (an Irwin–Hall approximation of a discrete
    /// Gaussian, not a real one). `|e| <= ERROR_BOUND`.
    pub fn error(&mut self) -> (r: i64)
        ensures
            r == low_ones(xoshiro_output(old(self)@), 38) - 19,
            final(self)@ == xoshiro_next(old(self)@),
            -ERROR_BOUND <= r <= ERROR_BOUND,
    {
        let bits = self.next_u64();
        let mut acc: i64 = 0;
        for i in 0..38u64
            invariant
                acc == low_ones(bits, i as nat),
                0 <= acc <= i,
        {
            proof {
                assert((bits >> i) & 1 <= 1) by (bit_vector);
            }
            acc = acc + ((bits >> i) & 1) as i64;
        }
        acc - 19
    }
}

/// The SplitMix64 counter after `i` steps is `seed + i·0x9E3779B97F4A7C15`
/// modulo `2^64`.
pub proof fn lemma_splitmix_counter(seed: u64, i: nat)
    ensures
        splitmix_counter(seed, i) as int == (seed as int + i * 0x9E37_79B9_7F4A_7C15int)
            % 0x1_0000_0000_0000_0000int,
    decreases i,
{
    let m = 0x1_0000_0000_0000_0000int;
    if i == 0 {
        lemma_small_mod(seed as nat, m as nat);
    } else {
        lemma_splitmix_counter(seed, (i - 1) as nat);
        let prev = splitmix_counter(seed, (i - 1) as nat);
        let a = seed as int + (i - 1) * 0x9E37_79B9_7F4A_7C15int;
        assert(prev as int + 0x9E37_79B9_7F4A_7C15int == (a % m) + 0x9E37_79B9_7F4A_7C15int);
        lemma_add_mod_noop(a, 0x9E37_79B9_7F4A_7C15int, m);
        lemma_small_mod(0x9E37_79B9_7F4A_7C15nat, m as nat);
        lemma_mod_twice(prev as int + 0x9E37_79B9_7F4A_7C15int, m);
        assert(a + 0x9E37_79B9_7F4A_7C15int == seed as int + i * 0x9E37_79B9_7F4A_7C15int) by (
        nonlinear_arith)
            requires
                a == seed as int + (i - 1) * 0x9E37_79B9_7F4A_7C15int,
        ;
        if prev as int + 0x9E37_79B9_7F4A_7C15int > u64::MAX {
            lemma_mod_sub_multiples_vanish(prev as int + 0x9E37_79B9_7F4A_7C15int, m);
            lemma_small_mod((prev as int + 0x9E37_79B9_7F4A_7C15int - m) as nat, m as nat);
        } else {
            lemma_small_mod((prev as int + 0x9E37_79B9_7F4A_7C15int) as nat, m as nat);
        }
    }
}

/// SplitMix64's mixing of `z`, with every product taken modulo `2^64`:
/// `x = (z ^ z>>30)·0xBF58476D1CE4E5B9`, `y = (x ^ x>>27)·0x94D049BB133111EB`,
/// and the result `y ^ y>>31`.
pub proof fn lemma_splitmix_mix(z: u64)
    ensures
        ({
            let x = (((z ^ (z >> 30u64)) as nat * 0xBF58_476D_1CE4_E5B9nat)
                % 0x1_0000_0000_0000_0000nat) as u64;
            let y = (((x ^ (x >> 27u64)) as nat * 0x94D0_49BB_1331_11EBnat)
                % 0x1_0000_0000_0000_0000nat) as u64;
            splitmix_mix(z) == y ^ (y >> 31u64)
        }),
{
}

/// One xoshiro256** step from the state words `(s0, s1, s2, s3)`: the
/// output is `rotl(5·s1 mod 2^64, 7)·9 mod 2^64`, and the next state is
/// `(s0^s3^s1, s1^s2^s0, s2^s0^(s1 << 17), rotl(s3^s1, 45))`.
pub proof fn lemma_xoshiro_step(s: Seq<u64>)
    requires
        s.len() == 4,
    ensures
        ({
            let y = ((s[1] as nat * 5) % 0x1_0000_0000_0000_0000nat) as u64;
            let z = (y << 7u64) | (y >> 57u64);
            xoshiro_output(s) as nat == (z as nat * 9) % 0x1_0000_0000_0000_0000nat
        }),
        xoshiro_next(s) == seq![
            s[0] ^ s[3] ^ s[1],
            s[1] ^ s[2] ^ s[0],
            s[2] ^ s[0] ^ (s[1] << 17u64),
            ((s[3] ^ s[1]) << 45u64) | ((s[3] ^ s[1]) >> 19u64),
        ],
{
    let (s0, s1, s2, s3) = (s[0], s[1], s[2], s[3]);
    assert(s1 ^ (s2 ^ s0) == s1 ^ s2 ^ s0) by (bit_vector);
    assert(s0 ^ (s3 ^ s1) == s0 ^ s3 ^ s1) by (bit_vector);
    assert(xoshiro_next(s) =~= seq![
        s[0] ^ s[3] ^ s[1],
        s[1] ^ s[2] ^ s[0],
        s[2] ^ s[0] ^ (s[1] << 17u64),
        ((s[3] ^ s[1]) << 45u64) | ((s[3] ^ s[1]) >> 19u64),
    ]);
}

/// The state `k` steps after the next one is the state `k + 1` steps on.
proof fn lemma_steps_shift(s: Seq<u64>, k: nat)
    ensures
        xoshiro_steps(xoshiro_next(s), k) == xoshiro_steps(s, k + 1),
    decreases k,
{
    if k > 0 {
        lemma_steps_shift(s, (k - 1) as nat);
        assert(xoshiro_steps(s, k + 1) == xoshiro_next(xoshiro_steps(s, k)));
    } else {
        assert(xoshiro_steps(s, 0) == s);
        assert(xoshiro_steps(s, 1) == xoshiro_next(xoshiro_steps(s, 0)));
    }
}

/// Draw `k` of the stream from `s` is where rejection sampling with `fuel`
/// further draws stops: every draw before it lands at or above
/// `u64::MAX - u64::MAX % bound`, and it lands below that, or it is the last
/// draw allowed.
pub open spec fn stops_at(s: Seq<u64>, bound: u64, fuel: nat, k: nat) -> bool {
    &&& k <= fuel
    &&& forall|j: nat|
        j < k ==> #[trigger] xoshiro_output(xoshiro_steps(s, j)) >= u64::MAX - u64::MAX % bound
    &&& xoshiro_output(xoshiro_steps(s, k)) < u64::MAX - u64::MAX % bound || k == fuel
}

/// Rejection sampling returns the draw it stops at reduced modulo `bound`,
/// and the state right after that draw.
#[verifier::spinoff_prover]
pub proof fn lemma_sample_first_accepted(s: Seq<u64>, bound: u64, fuel: nat)
    requires
        bound > 0,
    ensures
        exists|k: nat|
            #[trigger] stops_at(s, bound, fuel, k) && sample_below(s, bound, fuel).0
                == xoshiro_steps(s, k + 1) && sample_below(s, bound, fuel).1 as int
                == xoshiro_output(xoshiro_steps(s, k)) as int % bound as int,
    decreases fuel,
{
    let c = xoshiro_output(s);
    if c < acceptance_zone(bound) || fuel == 0 {
        assert(xoshiro_steps(s, 0) == s);
        lemma_steps_shift(s, 0);
        assert(stops_at(s, bound, fuel, 0));
    } else {
        let s1 = xoshiro_next(s);
        lemma_sample_first_accepted(s1, bound, (fuel - 1) as nat);
        let k1 = choose|k: nat|
            #[trigger] stops_at(s1, bound, (fuel - 1) as nat, k) && sample_below(
                s1,
                bound,
                (fuel - 1) as nat,
            ).0 == xoshiro_steps(s1, k + 1) && sample_below(s1, bound, (fuel - 1) as nat).1 as int
                == xoshiro_output(xoshiro_steps(s1, k)) as int % bound as int;
        lemma_stops_at_step(s, bound, fuel, k1);
        lemma_steps_shift(s, k1 + 1);
    }
}

/// Stopping at draw `k` from the next state, after a rejected first draw, is
/// stopping at draw `k + 1` from this one.
proof fn lemma_stops_at_step(s: Seq<u64>, bound: u64, fuel: nat, k: nat)
    requires
        bound > 0,
        fuel > 0,
        xoshiro_output(s) >= u64::MAX - u64::MAX % bound,
        stops_at(xoshiro_next(s), bound, (fuel - 1) as nat, k),
    ensures
        stops_at(s, bound, fuel, k + 1),
        xoshiro_steps(s, k + 1) == xoshiro_steps(xoshiro_next(s), k),
{
    let s1 = xoshiro_next(s);
    lemma_steps_shift(s, k);
    assert forall|j: nat| j < k + 1 implies #[trigger] xoshiro_output(xoshiro_steps(s, j))
        >= u64::MAX - u64::MAX % bound by {
        if j == 0 {
            assert(xoshiro_steps(s, 0) == s);
        } else {
            lemma_steps_shift(s, (j - 1) as nat);
            assert(xoshiro_output(xoshiro_steps(s1, (j - 1) as nat)) >= u64::MAX - u64::MAX % bound);
        }
    }
}

/// A ternary coefficient is the draw below 3 less one.
pub proof fn lemma_ternary_is_draw_less_one(d: u64)
    requires
        d < 3,
    ensures
        ternary_of(d) == d as int - 1,
{
}

/// `low_ones(x, k)` counts the ones among the low `k` bits of `x`, bit `i`
/// being `(x / 2^i) mod 2`; so `error` is that count over 38 bits, less 19.
pub proof fn lemma_low_ones_counts_bits(x: u64, k: nat)
    requires
        k <= 64,
    ensures
        low_ones(x, k) == sum(|i: int| (x as int / pow2(i as nat) as int) % 2, 0, k as int),
    decreases k,
{
    if k > 0 {
        lemma_low_ones_counts_bits(x, (k - 1) as nat);
        let j = (k - 1) as u64;
        vstd::bits::lemma_u64_shr_is_div(x, j);
        let y = x >> j;
        assert(y & 1 == y % 2) by (bit_vector);
    }
}

} // verus!
