# rune_ring

Rune is a lattice-based ring signature library: one member of a ring of
public keys signs a message, and a verifier learns that some member signed
without learning which one. Keys and signatures live in
`R_q = Z_q[X]/(X^n + 1)`; challenges form a sequential chain hashed with
SHAKE256 (Fiat-Shamir).

The library is written in Verus and its behaviour is proved against
contracts:

- `src/params.rs` — the two parameter sets (`rune_128`, `rune_256`) and
  their consistency invariant.
- `src/algebra.rs` — the mathematical model: centered residues, the exact
  negacyclic product over the integers, and the ring laws used by the
  correctness proof (distributivity, `a * (c * s) == c * (a * s)`,
  congruence modulo `q`).
- `src/math.rs` — polynomials, modular arithmetic, the schoolbook product,
  norms, and samplers; `uniform_coeff`, `bounded_coeff` and `cbd_coeff`
  turn drawn words into coefficients.
- `src/challenge.rs` — the challenge-chain hash input, challenge sampling
  from a SHAKE256 stream, and challenge validation.
- `src/keys.rs` — public and secret keys, key generation.
- `src/signature.rs` — ring validation, signing and verification.
  `sign_with_draws` is one signing attempt as a function of its random
  draws, and `sign_with_attempts` is rejection sampling over given
  attempts. Every signature that `ring_sign` returns has valid challenges
  and responses below the response bound, and, when the secret key was
  generated for the ring's shared element (`t = a * s + e`), is accepted by
  `ring_verify`. The outcome of `ring_sign` is the rejection-sampling
  outcome of the attempts it drew: at most `max_attempts` of them, and
  `RejectionSamplingFailed` only when that many were drawn and each was
  rejected.
- `src/rng.rs` — the `RandomSource` trait, implemented for `OsRng` and
  `ChaCha20Rng`.

Calls into `sha3`, `rand_core`, `rand_chacha` and `zeroize` go through small
trusted wrappers whose contracts are documented next to them.

`app/` holds serializable copies of the public data types and a displayable
error wrapper. `tests/` exercises the library end to end.
