# digital_signature_rs

Educational digital signature schemes over `u64` moduli — ElGamal, Schnorr
and a simplified RSA-PSS style scheme — written in Verus, with contracts
that pin every result and proofs of the schemes' correctness.

Layout of `src/`:

- `number_theory.rs` — primality, gcd, Euclid's lemma, binomial
  coefficients, Fermat's little theorem, the RSA identity, and the modular
  inverse (extended Euclidean algorithm).
- `keygen.rs` — the FNV-1a style hash, hashing of integers and messages,
  modular exponentiation and the primality test.
- `elgamal.rs`, `schnorr.rs`, `rsa_pss.rs` — the three schemes, each with a
  proof that signatures made with a well-formed key verify.
- `verify.rs` — hash checks and hash-based commitments.

Tests are under `tests/`.
