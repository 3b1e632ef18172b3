# nsc_core

The cryptographic layer of a homomorphic-encryption toolchain, verified with
Verus: arithmetic modulo a machine-word prime, the ring
`R_q = Z_q[X]/(X^N + 1)`, the negacyclic number-theoretic transform, BFV
parameter validation, and a seeded deterministic generator.

## Layout

- `src/modulus.rs`: `Modulus`, residue arithmetic, Fermat inverse, centering.
- `src/ring.rs`: `Poly` (reduced coefficients) and `PolyI128` (exact
  coefficients): sums, schoolbook negacyclic product, exact product, rounding
  scale by `t/q`.
- `src/ring_laws.rs`: the ring laws of the negacyclic product and of centering.
- `src/ntt.rs`: `NttTables`, the forward and inverse transforms and the
  product through them, each stated stage by stage.
- `src/ntt_laws.rs`: the round trip, and when the transforms stay in `u64`.
- `src/ntt_product.rs`: the transform evaluates at the roots of `X^N + 1`, so
  the product through it is the negacyclic product.
- `src/params.rs`: parameter validation, with the Miller–Rabin test it uses,
  and the message of each refusal.
- `src/rng.rs`: xoshiro256** seeded by SplitMix64, and the samplers on it.
- `src/arith.rs`, `src/sums.rs`: number theory (Euclid, Fermat) and finite
  sums that the proofs rest on.
- `app/`: what stays plain Rust: the noise budget in `f64`, and displayable
  parameter errors.
