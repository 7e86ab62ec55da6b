//! ElGamal signature scheme.
//!
//! Based on the difficulty of the discrete logarithm problem in Z*_p.
//!
//! **WARNING**: Educational implementation only.

use vstd::prelude::*;
use vstd::arithmetic::div_mod::*;
use vstd::arithmetic::mul::*;
use vstd::arithmetic::power::*;

use crate::keygen::{
    be_bytes, big_endian_digits, hash_bytes, hash_message_nonce, lemma_be_bytes_are_digits, mod_exp,
    simple_hash,
};
use crate::number_theory::{
    gcd_spec, inverse_spec, is_prime_spec, lemma_fermat_little, lemma_inverse_spec_exists,
    lemma_pow_exponent_congruent, lemma_prime_not_divides_pow,
};

pub use crate::number_theory::mod_inverse;

verus! {

/// ElGamal public key.
#[derive(Debug, Clone, PartialEq, Eq, Structural)]
pub struct ElGamalPublicKey {
    /// Prime modulus p.
    pub p: u64,
    /// Generator g.
    pub g: u64,
    /// Public value y = g^x mod p.
    pub y: u64,
}

/// ElGamal private key.
#[derive(Debug, Clone)]
pub struct ElGamalPrivateKey {
    /// Prime modulus p.
    pub p: u64,
    /// Generator g.
    pub g: u64,
    /// Private exponent x.
    pub x: u64,
}

/// An ElGamal signature (r, s).
#[derive(Debug, Clone, PartialEq, Eq, Structural)]
pub struct ElGamalSignature {
    /// r = g^k mod p.
    pub r: u64,
    /// s such that h(m) = x*r + k*s mod (p-1).
    pub s: u64,
}

/// ElGamal key pair.
#[derive(Debug, Clone)]
pub struct ElGamalKeyPair {
    /// The public key.
    pub public: ElGamalPublicKey,
    /// The private key.
    pub private: ElGamalPrivateKey,
}

/// The private exponent derived from a seed: `2 <= x <= p - 2`.
pub open spec fn elgamal_private_exponent(p: u64, seed: u64) -> int {
    (seed as int) % ((p - 3) as int) + 2
}

impl ElGamalKeyPair {
    /// Generate a key pair from parameters and a seed.
    ///
    /// - `p`: prime modulus
    /// - `g`: generator
    /// - `seed`: seed for private key derivation
    pub fn generate(p: u64, g: u64, seed: u64) -> (kp: Self)
        requires
            p >= 4,
        ensures
            kp.private.x == elgamal_private_exponent(p, seed),
            kp.private.x == (seed as int) % ((p - 3) as int) + 2,
            2 <= kp.private.x <= p - 2,
            kp.private.p == p,
            kp.private.g == g,
            kp.public == (ElGamalPublicKey { p, g, y: (pow(g as int, kp.private.x as nat) % (p as int)) as u64 }),
    {
        // Private key: 1 < x < p-1
        let x = (seed % (p - 3)) + 2;
        let y = mod_exp(g, x, p);

        Self {
            public: ElGamalPublicKey { p, g, y },
            private: ElGamalPrivateKey { p, g, x },
        }
    }
}

/// ElGamal signer.
#[derive(Debug, Clone)]
pub struct ElGamalSigner {
    p: u64,
    g: u64,
}

/// Verification, over the values it reads: a signature is accepted when
/// `0 < r < p`, `s < p - 1` and `g^(h mod (p-1)) ≡ y^r * r^s (mod p)`.
pub open spec fn elgamal_verify_spec(p: u64, g: u64, message: Seq<u8>, r: u64, s: u64, y: u64) -> bool {
    if r == 0 || r >= p || s >= p - 1 {
        false
    } else {
        let h = (hash_bytes(message) as int) % ((p - 1) as int);
        pow(g as int, h as nat) % (p as int) == ((pow(y as int, r as nat) % (p as int)) * (pow(
            r as int,
            s as nat,
        ) % (p as int))) % (p as int)
    }
}

/// The products that verification computes fit in a `u64`.
pub open spec fn elgamal_verify_fits(p: u64, r: u64, s: u64, y: u64) -> bool {
    r == 0 || r >= p || s >= p - 1 || (pow(y as int, r as nat) % (p as int)) * (pow(
        r as int,
        s as nat,
    ) % (p as int)) <= u64::MAX
}

// ---------------------------------------------------------------------------
// The nonce search
// ---------------------------------------------------------------------------
//
// Signing tries nonces `k` in `[2, p - 2]`, written as offsets `k - 2` in
// `[0, m)` with `m = p - 3`, starting from an offset `x0` derived from the
// message and the private key, until `k` is invertible modulo `p - 1`.

/// One step of the search: advance the offset by two modulo `m`; on coming
/// back to the starting offset `x0`, continue from `x0 + 3` instead.
pub open spec fn nonce_step(off: int, x0: int, m: int) -> int {
    let next = (off + 2) % m;
    if next == x0 {
        (x0 + 3) % m
    } else {
        next
    }
}

/// The nonce `off + 2` is invertible modulo `p1`.
pub open spec fn nonce_accepts(off: int, p1: int) -> bool {
    gcd_spec((off + 2) as nat, p1 as nat) == 1
}

/// The offset where the search from `off` stops, trying at most `fuel` more steps.
pub open spec fn nonce_search(off: int, x0: int, m: int, p1: int, fuel: nat) -> int
    decreases fuel,
{
    if fuel == 0 || nonce_accepts(off, p1) {
        off
    } else {
        nonce_search(nonce_step(off, x0, m), x0, m, p1, (fuel - 1) as nat)
    }
}

/// The search from `off` meets an accepted offset within `fuel` steps.
pub open spec fn nonce_found_within(off: int, x0: int, m: int, p1: int, fuel: nat) -> bool
    decreases fuel,
{
    nonce_accepts(off, p1) || (fuel > 0 && nonce_found_within(
        nonce_step(off, x0, m),
        x0,
        m,
        p1,
        (fuel - 1) as nat,
    ))
}

/// The nonce `k` that signing uses for `message` under private exponent `x`.
/// (The search always stops within `2 * m + 2` steps; see `lemma_nonce_found`.)
pub open spec fn elgamal_nonce(p: u64, message: Seq<u8>, x: u64) -> int {
    let m = p - 3;
    let p1 = p - 1;
    let x0 = (hash_bytes(message + be_bytes(x)) as int) % m;
    nonce_search(x0, x0, m, p1, (2 * m + 2) as nat) + 2
}

/// Offsets from which the target offset `m - 1` is reached by steps of two
/// modulo `m` (all offsets when `m` is odd; those of the target's parity otherwise).
spec fn reachable(off: int, m: int) -> bool {
    (m - 1 - off) % 2 == 0 || m % 2 == 1
}

/// Number of steps of two (modulo `m`) from a reachable offset to `m - 1`.
spec fn dist(off: int, m: int) -> int {
    if (m - 1 - off) % 2 == 0 {
        (m - 1 - off) / 2
    } else {
        (m - 2 - off) / 2 + 1 + (m - 1) / 2
    }
}

/// `m - 1` is an accepted offset: `gcd(m + 1, m + 2) == 1`.
proof fn lemma_target_accepted(m: int)
    requires
        m >= 1,
    ensures
        nonce_accepts(m - 1, m + 2),
{
    let a = (m + 1) as nat;
    let b = (m + 2) as nat;
    lemma_small_mod(a, b);
    lemma_fundamental_div_mod_converse_mod(m + 2, m + 1, 1, 1);
    assert(gcd_spec(1, 0) == 1);
    assert(gcd_spec(a, 1) == gcd_spec(1, a % 1));
    assert(gcd_spec(a, 1) == 1);
    assert(gcd_spec(b, a) == gcd_spec(a, b % a));
    assert(gcd_spec(a, b) == gcd_spec(b, a % b));
}

proof fn lemma_dist_facts(off: int, m: int)
    requires
        m >= 1,
        0 <= off < m,
        reachable(off, m),
    ensures
        0 <= dist(off, m) <= m,
        dist(off, m) == 0 ==> off == m - 1,
{
}

proof fn lemma_dist_step(off: int, m: int)
    requires
        m >= 1,
        0 <= off < m,
        off != m - 1,
        reachable(off, m),
    ensures
        0 <= (off + 2) % m < m,
        reachable((off + 2) % m, m),
        dist((off + 2) % m, m) == dist(off, m) - 1,
{
    if off + 2 < m {
        lemma_small_mod((off + 2) as nat, m as nat);
    } else {
        assert(off == m - 2);
        lemma_mod_self_0(m);
    }
}

/// From a reachable offset the search stops within `dist` steps.
proof fn lemma_found_reachable(off: int, x0: int, m: int, p1: int, f: nat)
    requires
        m >= 1,
        p1 == m + 2,
        0 <= off < m,
        0 <= x0 < m,
        reachable(off, m),
        f >= dist(off, m),
        (off == x0 && reachable(x0, m)) || (reachable(x0, m) && dist(off, m) < dist(x0, m)) || (
        !reachable(x0, m) && off % 2 == 1),
    ensures
        nonce_found_within(off, x0, m, p1, f),
    decreases dist(off, m),
{
    lemma_dist_facts(off, m);
    if !nonce_accepts(off, p1) {
        lemma_target_accepted(m);
        assert(off != m - 1);
        lemma_dist_step(off, m);
        let next = (off + 2) % m;
        if reachable(x0, m) {
            assert(next != x0);
        } else {
            assert(off + 2 < m);
            lemma_small_mod((off + 2) as nat, m as nat);
            assert(next != x0);
        }
        assert(nonce_step(off, x0, m) == next);
        lemma_found_reachable(next, x0, m, p1, (f - 1) as nat);
    }
}

/// From the start of an unreachable offset, the search comes back to `x0`
/// within `m / 2` steps and then continues from a reachable offset.
proof fn lemma_found_unreachable(off: int, x0: int, m: int, p1: int, f: nat, j: int)
    requires
        m >= 2,
        m % 2 == 0,
        p1 == m + 2,
        0 <= x0 < m,
        x0 % 2 == 0,
        off == (x0 + 2 * j) % m,
        0 <= j < m / 2,
        f >= m - j,
    ensures
        nonce_found_within(off, x0, m, p1, f),
    decreases m / 2 - j,
{
    if !nonce_accepts(off, p1) {
        let next = (off + 2) % m;
        assert(next == (x0 + 2 * (j + 1)) % m) by {
            lemma_mod_twice(x0 + 2 * j, m);
            lemma_add_mod_noop(x0 + 2 * j, 2, m);
            lemma_add_mod_noop(off, 2, m);
        }
        if next == x0 {
            let y0 = (x0 + 3) % m;
            if x0 + 3 < m {
                lemma_small_mod((x0 + 3) as nat, m as nat);
            } else {
                assert(x0 + 3 == m + 1);
                lemma_fundamental_div_mod_converse_mod(x0 + 3, m, 1, 1);
            }
            assert(y0 % 2 == 1);
            assert(nonce_step(off, x0, m) == y0);
            lemma_found_reachable(y0, x0, m, p1, (f - 1) as nat);
        } else {
            if j + 1 == m / 2 {
                assert(x0 + 2 * (j + 1) == x0 + m);
                lemma_mod_add_multiples_vanish(x0, m);
                lemma_small_mod(x0 as nat, m as nat);
            }
            assert(nonce_step(off, x0, m) == next);
            lemma_found_unreachable(next, x0, m, p1, (f - 1) as nat, j + 1);
        }
    }
}

/// The nonce search always stops within `2 * m + 2` steps.
pub proof fn lemma_nonce_found(x0: int, m: int, p1: int)
    requires
        m >= 1,
        p1 == m + 2,
        0 <= x0 < m,
    ensures
        nonce_found_within(x0, x0, m, p1, (2 * m + 2) as nat),
{
    if reachable(x0, m) {
        lemma_dist_facts(x0, m);
        lemma_found_reachable(x0, x0, m, p1, (2 * m + 2) as nat);
    } else {
        lemma_small_mod(x0 as nat, m as nat);
        lemma_found_unreachable(x0, x0, m, p1, (2 * m + 2) as nat, 0);
    }
}

/// Where the search stops when it stops: an accepted offset in `[0, m)`.
pub proof fn lemma_nonce_search_result(off: int, x0: int, m: int, p1: int, f: nat)
    requires
        m >= 1,
        0 <= off < m,
        0 <= x0 < m,
        nonce_found_within(off, x0, m, p1, f),
    ensures
        nonce_accepts(nonce_search(off, x0, m, p1, f), p1),
        0 <= nonce_search(off, x0, m, p1, f) < m,
    decreases f,
{
    if !nonce_accepts(off, p1) {
        let next = (off + 2) % m;
        lemma_mod_bound(off + 2, m);
        lemma_mod_bound(x0 + 3, m);
        lemma_nonce_search_result(nonce_step(off, x0, m), x0, m, p1, (f - 1) as nat);
    }
}

/// Search for the nonce, starting from `base_k`: returns `k` and its inverse
/// modulo `p1`.
fn find_nonce(base_k: u64, p1: u64) -> (res: (u64, u64))
    requires
        p1 >= 3,
    ensures
        ({
            let m = p1 - 2;
            let x0 = (base_k as int) % (m as int);
            &&& res.0 == nonce_search(x0, x0, m as int, p1 as int, (2 * m + 2) as nat) + 2
            &&& gcd_spec(res.0 as nat, p1 as nat) == 1
            &&& res.1 == inverse_spec(res.0 as int, p1 as int)
            &&& 2 <= res.0 < p1
        }),
{
    let ghost m = (p1 - 2) as int;
    let ghost x0 = (base_k as int) % m;
    let ghost fuel0 = (2 * m + 2) as nat;
    let mut k = (base_k % (p1 - 2)) + 2;
    let mut k_inv: u64 = 0;
    let ghost mut fuel: nat = fuel0;
    proof {
        lemma_nonce_found(x0, m, p1 as int);
    }
    loop
        invariant
            m == p1 - 2,
            x0 == (base_k as int) % m,
            0 <= x0 < m,
            2 <= k < p1,
            nonce_found_within(k - 2, x0, m, p1 as int, fuel),
            nonce_search(k - 2, x0, m, p1 as int, fuel) == nonce_search(x0, x0, m, p1 as int, fuel0),
        ensures
            k - 2 == nonce_search(x0, x0, m, p1 as int, fuel0),
            gcd_spec(k as nat, p1 as nat) == 1,
            k_inv == inverse_spec(k as int, p1 as int),
        decreases fuel,
    {
        if let Some(inv) = mod_inverse(k, p1) {
            k_inv = inv;
            break;
        }
        let ghost off = k - 2;
        k = (k % (p1 - 2)) + 2;
        proof {
            assert((off + 2) % m == k - 2);
        }
        if k == (base_k % (p1 - 2)) + 2 {
            k = (k + 1) % (p1 - 2) + 2;
        }
        proof {
            assert(k - 2 == nonce_step(off, x0, m));
            lemma_mod_bound(off + 2, m);
            lemma_mod_bound(x0 + 3, m);
            fuel = (fuel - 1) as nat;
        }
    }
    (k, k_inv)
}

/// `r = g^k mod p` for the signing nonce `k`.
pub open spec fn elgamal_r(p: u64, g: u64, message: Seq<u8>, x: u64) -> int {
    pow(g as int, elgamal_nonce(p, message, x) as nat) % (p as int)
}

/// `(h - x * r) mod (p - 1)`, computed as `(h mod (p-1) + (p-1) - (x*r) mod (p-1)) mod (p-1)`.
pub open spec fn elgamal_diff(p: u64, g: u64, message: Seq<u8>, x: u64) -> int {
    let p1 = (p - 1) as int;
    ((hash_bytes(message) as int) % p1 + p1 - ((x as int) * elgamal_r(p, g, message, x)) % p1) % p1
}

/// `s = (h - x * r) * k^(-1) mod (p - 1)`.
pub open spec fn elgamal_s(p: u64, g: u64, message: Seq<u8>, x: u64) -> int {
    let p1 = (p - 1) as int;
    (elgamal_diff(p, g, message, x) * inverse_spec(elgamal_nonce(p, message, x), p1)) % p1
}

/// The signature of `message` under private exponent `x` with parameters `p, g`.
pub open spec fn elgamal_sign_spec(p: u64, g: u64, message: Seq<u8>, x: u64) -> ElGamalSignature {
    ElGamalSignature {
        r: elgamal_r(p, g, message, x) as u64,
        s: elgamal_s(p, g, message, x) as u64,
    }
}

/// The intermediate values of signing fit in a `u64`: `x * r`,
/// `h mod (p-1) + (p-1)` and `(h - x*r mod (p-1)) * k^(-1)`.
pub open spec fn elgamal_sign_fits(p: u64, g: u64, message: Seq<u8>, x: u64) -> bool {
    let p1 = (p - 1) as int;
    &&& (x as int) * elgamal_r(p, g, message, x) <= u64::MAX
    &&& (hash_bytes(message) as int) % p1 + p1 <= u64::MAX
    &&& elgamal_diff(p, g, message, x) * inverse_spec(elgamal_nonce(p, message, x), p1)
        <= u64::MAX
}

impl ElGamalSigner {
    /// The prime modulus.
    pub closed spec fn modulus(&self) -> u64 {
        self.p
    }

    /// The generator.
    pub closed spec fn generator(&self) -> u64 {
        self.g
    }

    /// Create a new signer with the given parameters.
    pub fn new(p: u64, g: u64) -> (signer: Self)
        ensures
            signer.modulus() == p,
            signer.generator() == g,
    {
        Self { p, g }
    }

    /// Sign a message.
    ///
    /// Uses a deterministic k derived from the message hash and private key.
    /// Retries with incremented k until a valid inverse is found.
    pub fn sign(&self, message: &[u8], keypair: &ElGamalKeyPair) -> (sig: ElGamalSignature)
        requires
            self.modulus() >= 4,
            elgamal_sign_fits(self.modulus(), self.generator(), message@, keypair.private.x),
        ensures
            sig == elgamal_sign_spec(self.modulus(), self.generator(), message@, keypair.private.x),
            ({
                let p = self.modulus();
                let k = elgamal_nonce(p, message@, keypair.private.x);
                let p1 = (p - 1) as int;
                &&& 2 <= k <= p - 2
                &&& gcd_spec(k as nat, p1 as nat) == 1
                &&& sig.r == pow(self.generator() as int, k as nat) % (p as int)
                &&& sig.s < p1
                &&& ((keypair.private.x as int) * (sig.r as int) + k * (sig.s as int)) % p1
                    == (hash_bytes(message@) as int) % p1
            }),
    {
        let p = self.p;
        let p1 = p - 1;

        // Deterministic k: hash of message and private key
        let h = simple_hash(message);
        let base_k = hash_message_nonce(message, keypair.private.x);

        // Find a k that is coprime with p-1
        let (k, k_inv) = find_nonce(base_k, p1);

        let r = mod_exp(self.g, k, p);

        // s = (h - x*r) * k^(-1) mod (p-1)
        let xr = (keypair.private.x * r) % p1;
        let h_mod = h % p1;
        let diff = (h_mod + p1 - xr) % p1;

        let s = (diff * k_inv) % p1;
        proof {
            lemma_elgamal_signature_equation(p, self.g, message@, keypair.private.x);
        }

        ElGamalSignature { r, s }
    }

    /// Verify a signature.
    pub fn verify(&self, message: &[u8], sig: &ElGamalSignature, pk: &ElGamalPublicKey) -> (ok: bool)
        requires
            self.modulus() >= 1,
            elgamal_verify_fits(self.modulus(), sig.r, sig.s, pk.y),
        ensures
            ok == elgamal_verify_spec(self.modulus(), self.generator(), message@, sig.r, sig.s, pk.y),
            ok == ({
                let p = self.modulus() as int;
                let h = (hash_bytes(message@) as int) % (p - 1);
                &&& 0 < sig.r < p
                &&& sig.s < p - 1
                &&& pow(self.generator() as int, h as nat) % p == ((pow(pk.y as int, sig.r as nat) % p)
                    * (pow(sig.r as int, sig.s as nat) % p)) % p
            }),
    {
        let p = self.p;
        let p1 = p - 1;

        if sig.r == 0 || sig.r >= p || sig.s >= p1 {
            return false;
        }

        let h = simple_hash(message) % p1;

        // Verify: g^h ≡ y^r * r^s (mod p)
        let lhs = mod_exp(self.g, h, p);
        let yr = mod_exp(pk.y, sig.r, p);
        let rs = mod_exp(sig.r, sig.s, p);
        let rhs = (yr * rs) % p;

        lhs == rhs
    }
}


/// Every private exponent derived from a seed lies strictly between 1 and
/// `p - 1`, and differs from 2 by the seed modulo `p - 3`.
pub proof fn lemma_elgamal_private_exponent_range(p: u64, seed: u64)
    requires
        p >= 4,
    ensures
        2 <= elgamal_private_exponent(p, seed) <= p - 2,
        (elgamal_private_exponent(p, seed) - 2) % ((p - 3) as int) == (seed as int) % ((p - 3) as int),
{
    let m = (p - 3) as int;
    let x = elgamal_private_exponent(p, seed);
    lemma_mod_bound(seed as int, m);
    lemma_mod_twice(seed as int, m);
}

/// The signing nonce lies in `[2, p - 2]` and is invertible modulo `p - 1`.
pub proof fn lemma_elgamal_nonce(p: u64, message: Seq<u8>, x: u64)
    requires
        p >= 4,
    ensures
        2 <= elgamal_nonce(p, message, x) <= p - 2,
        gcd_spec(elgamal_nonce(p, message, x) as nat, (p - 1) as nat) == 1,
        0 <= inverse_spec(elgamal_nonce(p, message, x), (p - 1) as int) < p - 1,
        (elgamal_nonce(p, message, x) * inverse_spec(elgamal_nonce(p, message, x), (p - 1) as int))
            % ((p - 1) as int) == 1,
{
    let m = (p - 3) as int;
    let p1 = (p - 1) as int;
    let x0 = (hash_bytes(message + be_bytes(x)) as int) % m;
    lemma_mod_bound(hash_bytes(message + be_bytes(x)) as int, m);
    lemma_nonce_found(x0, m, p1);
    lemma_nonce_search_result(x0, x0, m, p1, (2 * m + 2) as nat);
    let k = elgamal_nonce(p, message, x);
    lemma_inverse_spec_exists(k as nat, p1 as nat);
    lemma_small_mod(1, p1 as nat);
}

/// With a prime modulus and a generator not divisible by it, a public value
/// `g^x mod p` is never zero.
pub proof fn lemma_elgamal_public_nonzero(p: u64, g: u64, x: u64)
    requires
        is_prime_spec(p as int),
        (g as int) % (p as int) != 0,
    ensures
        0 < pow(g as int, x as nat) % (p as int) < p,
{
    lemma_prime_not_divides_pow(g as int, x as nat, p as int);
    lemma_mod_bound(pow(g as int, x as nat), p as int);
}

/// What a signature is: with the nonce `k` (in `[2, p - 2]`, invertible
/// modulo `p - 1`), `r = g^k mod p`, `s < p - 1`, and the ElGamal equation
/// `x*r + k*s ≡ H(m) (mod p - 1)` holds.
pub proof fn lemma_elgamal_signature_equation(p: u64, g: u64, message: Seq<u8>, x: u64)
    requires
        p >= 4,
    ensures
        ({
            let sig = elgamal_sign_spec(p, g, message, x);
            let k = elgamal_nonce(p, message, x);
            let p1 = (p - 1) as int;
            &&& 2 <= k <= p - 2
            &&& gcd_spec(k as nat, p1 as nat) == 1
            &&& sig.r == pow(g as int, k as nat) % (p as int)
            &&& sig.s < p1
            &&& ((x as int) * (sig.r as int) + k * (sig.s as int)) % p1 == (hash_bytes(message) as int) % p1
        }),
{
    let pi = p as int;
    let p1 = (p - 1) as int;
    let xi = x as int;
    lemma_elgamal_nonce(p, message, x);
    let k = elgamal_nonce(p, message, x);
    let kinv = inverse_spec(k, p1);
    let r = elgamal_r(p, g, message, x);
    let diff = elgamal_diff(p, g, message, x);
    let s = elgamal_s(p, g, message, x);
    let hh = (hash_bytes(message) as int) % p1;
    lemma_mod_bound(pow(g as int, k as nat), pi);
    lemma_mod_bound(diff * kinv, p1);
    lemma_mod_bound(hash_bytes(message) as int, p1);
    let sig = elgamal_sign_spec(p, g, message, x);
    assert(sig.r == r && sig.s == s);
    // k * s ≡ diff (mod p - 1)
    assert((k * s) % p1 == diff) by {
        lemma_mul_mod_noop_right(k, diff * kinv, p1);
        lemma_mul_is_associative(k, diff, kinv);
        lemma_mul_is_commutative(k, diff);
        lemma_mul_is_associative(diff, k, kinv);
        lemma_mul_mod_noop_right(diff, k * kinv, p1);
        lemma_mod_bound(elgamal_diff(p, g, message, x), p1);
        lemma_small_mod(diff as nat, p1 as nat);
    }
    // x*r + k*s ≡ h (mod p - 1)
    assert((xi * r + k * s) % p1 == hh) by {
        let xr = xi * r;
        lemma_fundamental_div_mod(xr, p1);
        let t = xr / p1;
        lemma_add_mod_noop(xr, k * s, p1);
        lemma_add_mod_noop(xr, diff, p1);
        lemma_mod_twice(diff, p1);
        // diff ≡ hh + p1 - xr % p1
        lemma_add_mod_noop(xr, hh + p1 - xr % p1, p1);
        lemma_mod_twice(hh + p1 - xr % p1, p1);
        assert(xr + (hh + p1 - xr % p1) == hh + p1 * (t + 1)) by {
            lemma_mul_is_distributive_add(p1, t, 1);
        }
        lemma_mod_multiples_vanish(t + 1, hh, p1);
        lemma_small_mod(hh as nat, p1 as nat);
    }
    assert(((xi * r + k * s) as int) % p1 == hh);
}

/// Where the nonce search starts: at offset `H(m ++ x) mod (p - 3)`, with `x`
/// hashed as all eight of its big-endian bytes; the nonce is the first offset
/// (plus 2) that the search accepts from there.
pub proof fn lemma_elgamal_nonce_start(p: u64, message: Seq<u8>, x: u64)
    requires
        p >= 4,
    ensures
        ({
            let m = (p - 3) as int;
            let x0 = (hash_bytes(message + big_endian_digits(x)) as int) % m;
            elgamal_nonce(p, message, x) == nonce_search(x0, x0, m, (p - 1) as int, (2 * m + 2) as nat) + 2
        }),
{
    lemma_be_bytes_are_digits(x);
}

/// Correctness of ElGamal: with a prime modulus `p >= 5` and a generator `g`
/// not divisible by `p`, a signature made with private exponent `x` verifies
/// under the public value `y = g^x mod p`, for every message.
pub proof fn lemma_elgamal_sign_verify(p: u64, g: u64, x: u64, message: Seq<u8>)
    requires
        is_prime_spec(p as int),
        p >= 5,
        (g as int) % (p as int) != 0,
    ensures
        ({
            let sig = elgamal_sign_spec(p, g, message, x);
            elgamal_verify_spec(
                p,
                g,
                message,
                sig.r,
                sig.s,
                (pow(g as int, x as nat) % (p as int)) as u64,
            )
        }),
{
    let pi = p as int;
    let p1 = (p - 1) as int;
    let gi = g as int;
    let xi = x as int;
    lemma_elgamal_nonce(p, message, x);
    let k = elgamal_nonce(p, message, x);
    let kinv = inverse_spec(k, p1);
    let r = elgamal_r(p, g, message, x);
    let diff = elgamal_diff(p, g, message, x);
    let s = elgamal_s(p, g, message, x);
    let y = pow(gi, x as nat) % pi;
    let hh = (hash_bytes(message) as int) % p1;
    lemma_elgamal_public_nonzero(p, g, k as nat as u64);
    lemma_elgamal_public_nonzero(p, g, x);
    lemma_mod_bound(diff * kinv, p1);
    lemma_mod_bound(hash_bytes(message) as int, p1);
    let sig = elgamal_sign_spec(p, g, message, x);
    assert(sig.r == r && sig.s == s);
    // y^r * r^s ≡ g^(x*r + k*s) (mod p)
    lemma_pow_mod_noop(pow(gi, x as nat), r as nat, pi);
    lemma_pow_multiplies(gi, x as nat, r as nat);
    lemma_pow_mod_noop(pow(gi, k as nat), s as nat, pi);
    lemma_pow_multiplies(gi, k as nat, s as nat);
    let e1 = (xi * r) as nat;
    let e2 = (k * s) as nat;
    lemma_mul_nonnegative(xi, r);
    lemma_mul_nonnegative(k, s);
    lemma_pow_adds(gi, e1, e2);
    lemma_mul_mod_noop_general(pow(gi, e1), pow(gi, e2), pi);
    assert(((pow(y, r as nat) % pi) * (pow(r, s as nat) % pi)) % pi == pow(gi, e1 + e2) % pi);
    lemma_elgamal_signature_equation(p, g, message, x);
    assert(((e1 + e2) as int) % p1 == hh);
    // Fermat: g^(p-1) ≡ 1 (mod p), so exponents only matter modulo p - 1
    lemma_fermat_little(g as nat, p as nat);
    lemma_small_mod(hh as nat, p1 as nat);
    lemma_pow_exponent_congruent(gi, (e1 + e2) as nat, hh as nat, pi, p1 as nat);
}


/// For a prime modulus `p >= 5` with `p * p` within `u64`, and a generator not
/// divisible by `p`: every key pair that `generate` builds from a seed signs
/// every message within `u64` arithmetic, and the signature verifies within
/// `u64` arithmetic under the pair's public key.
pub proof fn lemma_elgamal_generated_keys(p: u64, g: u64, seed: u64, message: Seq<u8>)
    requires
        is_prime_spec(p as int),
        p >= 5,
        p * p <= u64::MAX,
        (g as int) % (p as int) != 0,
    ensures
        ({
            let x = elgamal_private_exponent(p, seed) as u64;
            let y = (pow(g as int, x as nat) % (p as int)) as u64;
            let sig = elgamal_sign_spec(p, g, message, x);
            &&& elgamal_sign_fits(p, g, message, x)
            &&& elgamal_verify_fits(p, sig.r, sig.s, y)
            &&& elgamal_verify_spec(p, g, message, sig.r, sig.s, y)
        }),
{
    let pi = p as int;
    let p1 = (p - 1) as int;
    lemma_mod_bound(seed as int, pi - 3);
    let x = elgamal_private_exponent(p, seed) as u64;
    lemma_elgamal_sign_verify(p, g, x, message);
    lemma_elgamal_nonce(p, message, x);
    let r = elgamal_r(p, g, message, x);
    lemma_mod_bound(pow(g as int, elgamal_nonce(p, message, x) as nat), pi);
    assert((x as int) * r <= u64::MAX) by (nonlinear_arith)
        requires
            0 <= x < pi,
            0 <= r < pi,
            pi * pi <= u64::MAX,
    ;
    lemma_mod_bound(hash_bytes(message) as int, p1);
    assert(2 * pi <= pi * pi) by (nonlinear_arith)
        requires pi >= 5;
    let diff = elgamal_diff(p, g, message, x);
    let kinv = inverse_spec(elgamal_nonce(p, message, x), p1);
    lemma_mod_bound(
        (hash_bytes(message) as int) % p1 + p1 - ((x as int) * r) % p1,
        p1,
    );
    assert(diff * kinv <= u64::MAX) by (nonlinear_arith)
        requires
            0 <= diff < pi,
            0 <= kinv < pi,
            pi * pi <= u64::MAX,
    ;
    let y = (pow(g as int, x as nat) % pi) as u64;
    let sig = elgamal_sign_spec(p, g, message, x);
    lemma_mod_bound(pow(y as int, sig.r as nat), pi);
    lemma_mod_bound(pow(sig.r as int, sig.s as nat), pi);
    let a = pow(y as int, sig.r as nat) % pi;
    let b = pow(sig.r as int, sig.s as nat) % pi;
    assert(a * b <= u64::MAX) by (nonlinear_arith)
        requires
            0 <= a < pi,
            0 <= b < pi,
            pi * pi <= u64::MAX,
    ;
}

} // verus!
