//! Schnorr signature scheme.
//!
//! Provably secure in the random oracle model under the discrete logarithm assumption.
//!
//! **WARNING**: Educational implementation only.

use vstd::prelude::*;
use vstd::arithmetic::div_mod::*;
use vstd::arithmetic::mul::*;
use vstd::arithmetic::power::*;

use crate::keygen::{
    be_bytes, big_endian_digits, hash_bytes, hash_pair, lemma_be_bytes_are_digits, mod_exp, simple_hash,
};
use crate::number_theory::{
    is_prime_spec, lemma_fermat_little, lemma_pow_exponent_congruent, lemma_prime_by_trial_division,
};

verus! {

/// Schnorr parameters (group parameters).
#[derive(Debug, Clone)]
pub struct SchnorrParams {
    /// Prime modulus p.
    pub p: u64,
    /// Generator g.
    pub g: u64,
    /// Subgroup order q (p-1 for simplicity).
    pub q: u64,
}

impl SchnorrParams {
    /// Demo parameters (p=23, g=5).
    pub fn demo() -> (params: Self)
        ensures
            params == (SchnorrParams { p: 23, g: 5, q: 22 }),
    {
        Self { p: 23, g: 5, q: 22 }
    }

    /// Medium parameters.
    pub fn medium() -> (params: Self)
        ensures
            params == (SchnorrParams { p: 100003, g: 2, q: 100002 }),
    {
        Self { p: 100003, g: 2, q: 100002 }
    }
}

/// Schnorr public key.
#[derive(Debug, Clone, PartialEq, Eq, Structural)]
pub struct SchnorrPublicKey {
    /// y = g^x mod p.
    pub y: u64,
}

/// Schnorr private key.
#[derive(Debug, Clone)]
pub struct SchnorrPrivateKey {
    /// Secret exponent x.
    pub x: u64,
}

/// Schnorr key pair.
#[derive(Debug, Clone)]
pub struct SchnorrKeyPair {
    /// Public key.
    pub public: SchnorrPublicKey,
    /// Private key.
    pub private: SchnorrPrivateKey,
}

/// The secret exponent derived from a seed: `1 <= x <= q - 2`.
pub open spec fn schnorr_private_exponent(params: SchnorrParams, seed: u64) -> int {
    (seed as int) % ((params.q - 2) as int) + 1
}

impl SchnorrKeyPair {
    /// Generate a key pair from seed.
    pub fn generate(params: &SchnorrParams, seed: u64) -> (kp: Self)
        requires
            params.q >= 3,
            params.p >= 1,
        ensures
            kp.private.x == schnorr_private_exponent(*params, seed),
            kp.private.x == (seed as int) % ((params.q - 2) as int) + 1,
            1 <= kp.private.x <= params.q - 2,
            kp.public.y == pow(params.g as int, kp.private.x as nat) % (params.p as int),
    {
        let x = (seed % (params.q - 2)) + 1;
        let y = mod_exp(params.g, x, params.p);
        Self { public: SchnorrPublicKey { y }, private: SchnorrPrivateKey { x } }
    }
}

/// A Schnorr signature (e, s).
#[derive(Debug, Clone, PartialEq, Eq, Structural)]
pub struct SchnorrSignature {
    /// Challenge e = H(g^k, message).
    pub e: u64,
    /// Response s = k - x*e mod q.
    pub s: u64,
}

/// Schnorr signer/verifier.
#[derive(Debug, Clone)]
pub struct SchnorrSigner {
    params: SchnorrParams,
}

/// The signing nonce: `k = H(H(m), x) mod (q - 2) + 1`.
pub open spec fn schnorr_nonce(params: SchnorrParams, message: Seq<u8>, x: u64) -> int {
    (hash_bytes(be_bytes(hash_bytes(message)) + be_bytes(x)) as int) % ((params.q - 2) as int) + 1
}

/// The challenge for commitment `r`: `H(r, H(m)) mod q`.
pub open spec fn schnorr_challenge(params: SchnorrParams, r: u64, message: Seq<u8>) -> int {
    (hash_bytes(be_bytes(r) + be_bytes(hash_bytes(message))) as int) % (params.q as int)
}

/// The commitment `r = g^k mod p`.
pub open spec fn schnorr_commitment(params: SchnorrParams, message: Seq<u8>, x: u64) -> int {
    pow(params.g as int, schnorr_nonce(params, message, x) as nat) % (params.p as int)
}

/// The signature of `message` under secret exponent `x`: `e = H(r, m) mod q`,
/// `s = (k - x * e) mod q`.
pub open spec fn schnorr_sign_spec(params: SchnorrParams, message: Seq<u8>, x: u64) -> SchnorrSignature {
    let q = params.q as int;
    let k = schnorr_nonce(params, message, x);
    let e = schnorr_challenge(params, schnorr_commitment(params, message, x) as u64, message);
    SchnorrSignature { e: e as u64, s: ((k + q - ((x as int) * e) % q) % q) as u64 }
}

/// The intermediate values of signing fit in a `u64`: `x * e` and `k + q`.
pub open spec fn schnorr_sign_fits(params: SchnorrParams, message: Seq<u8>, x: u64) -> bool {
    let e = schnorr_challenge(params, schnorr_commitment(params, message, x) as u64, message);
    &&& (x as int) * e <= u64::MAX
    &&& schnorr_nonce(params, message, x) + params.q <= u64::MAX
}

/// The recomputed commitment `g^s * y^e mod p`.
pub open spec fn schnorr_recommit(params: SchnorrParams, sig: SchnorrSignature, y: u64) -> int {
    let p = params.p as int;
    ((pow(params.g as int, sig.s as nat) % p) * (pow(y as int, sig.e as nat) % p)) % p
}

/// Verification: the challenge recomputed from `g^s * y^e mod p` equals `e`.
pub open spec fn schnorr_verify_spec(params: SchnorrParams, message: Seq<u8>, sig: SchnorrSignature, y: u64) -> bool {
    sig.e == schnorr_challenge(params, schnorr_recommit(params, sig, y) as u64, message)
}

/// The product that verification computes fits in a `u64`.
pub open spec fn schnorr_verify_fits(params: SchnorrParams, sig: SchnorrSignature, y: u64) -> bool {
    let p = params.p as int;
    (pow(params.g as int, sig.s as nat) % p) * (pow(y as int, sig.e as nat) % p) <= u64::MAX
}

impl SchnorrSigner {
    /// The group parameters.
    pub closed spec fn params(&self) -> SchnorrParams {
        self.params
    }

    /// Create a new signer with the given parameters.
    pub fn new(params: &SchnorrParams) -> (signer: Self)
        ensures
            signer.params() == *params,
    {
        Self { params: SchnorrParams { p: params.p, g: params.g, q: params.q } }
    }

    /// Sign a message.
    pub fn sign(&self, message: &[u8], keypair: &SchnorrKeyPair) -> (sig: SchnorrSignature)
        requires
            self.params().q >= 3,
            self.params().p >= 1,
            schnorr_sign_fits(self.params(), message@, keypair.private.x),
        ensures
            sig == schnorr_sign_spec(self.params(), message@, keypair.private.x),
            ({
                let (p, g, q) = (self.params().p as int, self.params().g as int, self.params().q as int);
                let x = keypair.private.x as int;
                let h = hash_bytes(message@);
                let k = (hash_bytes(be_bytes(h) + be_bytes(keypair.private.x)) as int) % (q - 2) + 1;
                let r = pow(g, k as nat) % p;
                let e = (hash_bytes(be_bytes(r as u64) + be_bytes(h)) as int) % q;
                &&& sig.e == e
                &&& sig.s < q
                &&& (sig.s + x * e) % q == k
            }),
    {
        let p = self.params.p;
        let g = self.params.g;
        let q = self.params.q;

        // Deterministic k from message and private key
        let msg_hash = simple_hash(message);
        let k = (hash_pair(msg_hash, keypair.private.x) % (q - 2)) + 1;

        // r = g^k mod p
        let r = mod_exp(g, k, p);

        // e = H(r, message) mod q
        let msg_u64 = simple_hash(message);
        let e = hash_pair(r, msg_u64) % q;

        // s = (k - x*e) mod q
        let xe = (keypair.private.x * e) % q;
        let s = (k + q - xe) % q;
        proof {
            lemma_schnorr_response(k as int, q as int, (keypair.private.x as int) * (e as int));
        }

        SchnorrSignature { e, s }
    }

    /// Verify a signature.
    pub fn verify(&self, message: &[u8], sig: &SchnorrSignature, pk: &SchnorrPublicKey) -> (ok: bool)
        requires
            self.params().q >= 1,
            self.params().p >= 1,
            schnorr_verify_fits(self.params(), *sig, pk.y),
        ensures
            ok == schnorr_verify_spec(self.params(), message@, *sig, pk.y),
            ok == ({
                let (p, g, q) = (self.params().p as int, self.params().g as int, self.params().q as int);
                let rv = ((pow(g, sig.s as nat) % p) * (pow(pk.y as int, sig.e as nat) % p)) % p;
                sig.e == (hash_bytes(be_bytes(rv as u64) + be_bytes(hash_bytes(message@))) as int) % q
            }),
    {
        let p = self.params.p;
        let g = self.params.g;
        let q = self.params.q;

        // Recompute r_v = g^s * y^e mod p
        let gs = mod_exp(g, sig.s, p);
        let ye = mod_exp(pk.y, sig.e, p);
        let r_v = (gs * ye) % p;

        // Recompute e_v = H(r_v, message) mod q
        let msg_u64 = simple_hash(message);
        let e_v = hash_pair(r_v, msg_u64) % q;

        sig.e == e_v
    }
}


/// The response `s = (k + q - (x*e) mod q) mod q` is the residue below `q`
/// with `s + x*e ≡ k (mod q)`.
pub proof fn lemma_schnorr_response(k: int, q: int, xe: int)
    requires
        0 <= k < q,
        xe >= 0,
    ensures
        0 <= (k + q - xe % q) % q < q,
        ((k + q - xe % q) % q + xe) % q == k,
{
    let s = (k + q - xe % q) % q;
    lemma_mod_bound(xe, q);
    lemma_mod_bound(k + q - xe % q, q);
    lemma_fundamental_div_mod(xe, q);
    let t = xe / q;
    lemma_add_mod_noop(k + q - xe % q, xe, q);
    lemma_mod_twice(k + q - xe % q, q);
    lemma_add_mod_noop(s, xe, q);
    assert(k + q - xe % q + xe == k + q * (t + 1)) by {
        lemma_mul_is_distributive_add(q, t, 1);
    }
    lemma_mod_multiples_vanish(t + 1, k, q);
    lemma_small_mod(k as nat, q as nat);
}

/// What a signature is: with `h = H(m)`, nonce `k = H(h, x) mod (q - 2) + 1`
/// and commitment `r = g^k mod p`, the challenge is `e = H(r, h) mod q` over
/// the full 64-bit values of `r` and `h`, and the response `s < q` satisfies
/// `s + x*e ≡ k (mod q)`.
pub proof fn lemma_schnorr_signature_equation(params: SchnorrParams, message: Seq<u8>, x: u64)
    requires
        params.q >= 3,
        params.p >= 1,
    ensures
        ({
            let (p, g, q) = (params.p as int, params.g as int, params.q as int);
            let sig = schnorr_sign_spec(params, message, x);
            let h = hash_bytes(message);
            let k = (hash_bytes(big_endian_digits(h) + big_endian_digits(x)) as int) % (q - 2) + 1;
            let r = pow(g, k as nat) % p;
            let e = (hash_bytes(big_endian_digits(r as u64) + big_endian_digits(h)) as int) % q;
            &&& sig.e == e
            &&& sig.s < q
            &&& (sig.s + (x as int) * e) % q == k
        }),
{
    let (p, g, q) = (params.p as int, params.g as int, params.q as int);
    let h = hash_bytes(message);
    lemma_be_bytes_are_digits(h);
    lemma_be_bytes_are_digits(x);
    let k = schnorr_nonce(params, message, x);
    lemma_mod_bound(hash_bytes(be_bytes(h) + be_bytes(x)) as int, q - 2);
    let r = schnorr_commitment(params, message, x);
    lemma_mod_bound(pow(g, k as nat), p);
    lemma_be_bytes_are_digits(r as u64);
    let e = schnorr_challenge(params, r as u64, message);
    lemma_mod_bound(hash_bytes(be_bytes(r as u64) + be_bytes(h)) as int, q);
    lemma_mul_nonnegative(x as int, e);
    lemma_schnorr_response(k, q, (x as int) * e);
}

/// What verification accepts: with `r_v = g^s * y^e mod p`, exactly the
/// signatures whose challenge is `H(r_v, H(m)) mod q` over the full 64-bit values.
pub proof fn lemma_schnorr_verify_accepts(params: SchnorrParams, message: Seq<u8>, sig: SchnorrSignature, y: u64)
    ensures
        schnorr_verify_spec(params, message, sig, y) <==> ({
            let (p, g, q) = (params.p as int, params.g as int, params.q as int);
            let rv = ((pow(g, sig.s as nat) % p) * (pow(y as int, sig.e as nat) % p)) % p;
            sig.e == (hash_bytes(big_endian_digits(rv as u64) + big_endian_digits(hash_bytes(message))) as int) % q
        }),
{
    lemma_be_bytes_are_digits(schnorr_recommit(params, sig, y) as u64);
    lemma_be_bytes_are_digits(hash_bytes(message));
}

/// Every secret exponent derived from a seed lies in `[1, q - 2]`, and
/// differs from 1 by the seed modulo `q - 2`.
pub proof fn lemma_schnorr_private_exponent_range(params: SchnorrParams, seed: u64)
    requires
        params.q >= 3,
    ensures
        1 <= schnorr_private_exponent(params, seed) <= params.q - 2,
        (schnorr_private_exponent(params, seed) - 1) % ((params.q - 2) as int) == (seed as int) % ((
        params.q - 2) as int),
{
    let m = (params.q - 2) as int;
    lemma_mod_bound(seed as int, m);
    lemma_mod_twice(seed as int, m);
}

/// Correctness of Schnorr signatures: when `g` has order dividing `q` modulo
/// `p` (`g^q ≡ 1 (mod p)`), a signature made with secret exponent `x`
/// verifies under the public value `y = g^x mod p`, for every message.
pub proof fn lemma_schnorr_sign_verify(params: SchnorrParams, x: u64, message: Seq<u8>)
    requires
        params.q >= 3,
        params.p >= 2,
        pow(params.g as int, params.q as nat) % (params.p as int) == 1,
    ensures
        schnorr_verify_spec(
            params,
            message,
            schnorr_sign_spec(params, message, x),
            (pow(params.g as int, x as nat) % (params.p as int)) as u64,
        ),
{
    let p = params.p as int;
    let q = params.q as int;
    let gi = params.g as int;
    let xi = x as int;
    let k = schnorr_nonce(params, message, x);
    let r = schnorr_commitment(params, message, x);
    let sig = schnorr_sign_spec(params, message, x);
    let e = schnorr_challenge(params, r as u64, message);
    lemma_mod_bound(hash_bytes(be_bytes(hash_bytes(message)) + be_bytes(x)) as int, q - 2);
    lemma_mod_bound(hash_bytes(be_bytes(r as u64) + be_bytes(hash_bytes(message))) as int, q);
    lemma_mod_bound(pow(gi, k as nat), p);
    lemma_mod_bound(xi * e, q);
    let s = (k + q - (xi * e) % q) % q;
    lemma_mod_bound(k + q - (xi * e) % q, q);
    assert(sig.e == e && sig.s == s);
    let y = pow(gi, x as nat) % p;
    lemma_mod_bound(pow(gi, x as nat), p);
    // g^s * y^e ≡ g^(s + x*e) (mod p)
    lemma_pow_mod_noop(pow(gi, x as nat), e as nat, p);
    lemma_pow_multiplies(gi, x as nat, e as nat);
    lemma_mul_nonnegative(xi, e);
    let xe = (xi * e) as nat;
    lemma_pow_adds(gi, s as nat, xe);
    lemma_mul_mod_noop_general(pow(gi, s as nat), pow(gi, xe), p);
    assert(schnorr_recommit(params, sig, y as u64) == pow(gi, (s + xe) as nat) % p);
    // s + x*e ≡ k (mod q)
    assert((s + xe) % q == k) by {
        lemma_fundamental_div_mod(xi * e, q);
        let t = (xi * e) / q;
        lemma_add_mod_noop(k + q - (xi * e) % q, xi * e, q);
        lemma_mod_twice(k + q - (xi * e) % q, q);
        lemma_add_mod_noop(s, xi * e, q);
        assert(k + q - (xi * e) % q + xi * e == k + q * (t + 1)) by {
            lemma_mul_is_distributive_add(q, t, 1);
        }
        lemma_mod_multiples_vanish(t + 1, k, q);
        lemma_small_mod(k as nat, q as nat);
    }
    lemma_small_mod(k as nat, q as nat);
    lemma_pow_exponent_congruent(gi, (s + xe) as nat, k as nat, p, q as nat);
}


/// 100003 is prime.
proof fn lemma_medium_prime()
    ensures
        is_prime_spec(100003),
{
    assert(forall|d: u32| 2 <= d < 317 ==> #[trigger] (100003u32 % d) != 0) by (bit_vector);
    assert forall|d: int| 2 <= d < 317 implies #[trigger] (100003int % d) != 0 by {
        let du = d as u32;
        assert((100003u32 % du) != 0);
    }
    lemma_prime_by_trial_division(100003, 317);
}


/// 23 is prime.
proof fn lemma_demo_prime()
    ensures
        is_prime_spec(23),
{
    assert forall|d: int| 2 <= d < 5 implies #[trigger] (23int % d) != 0 by {
        if d == 2 {
        } else if d == 3 {
        } else {
            assert(d == 4);
        }
    }
    lemma_prime_by_trial_division(23, 5);
}

/// With the demo parameters or the medium parameters, every key pair that
/// `generate` builds from a seed signs every message within `u64`
/// arithmetic, and its signatures verify within `u64` arithmetic.
pub proof fn lemma_schnorr_standard_params(params: SchnorrParams, seed: u64, message: Seq<u8>)
    requires
        params == (SchnorrParams { p: 23, g: 5, q: 22 }) || params == (SchnorrParams {
            p: 100003,
            g: 2,
            q: 100002,
        }),
    ensures
        ({
            let x = schnorr_private_exponent(params, seed) as u64;
            let y = (pow(params.g as int, x as nat) % (params.p as int)) as u64;
            let sig = schnorr_sign_spec(params, message, x);
            &&& schnorr_sign_fits(params, message, x)
            &&& schnorr_verify_fits(params, sig, y)
            &&& schnorr_verify_spec(params, message, sig, y)
        }),
{
    let p = params.p as int;
    let q = params.q as int;
    let gi = params.g as int;
    if params.p == 23 {
        lemma_demo_prime();
    } else {
        lemma_medium_prime();
    }
    lemma_fermat_little(params.g as nat, params.p as nat);
    let xx = schnorr_private_exponent(params, seed);
    lemma_mod_bound(seed as int, q - 2);
    let x = xx as u64;
    lemma_schnorr_sign_verify(params, x, message);
    let k = schnorr_nonce(params, message, x);
    lemma_mod_bound(hash_bytes(be_bytes(hash_bytes(message)) + be_bytes(x)) as int, q - 2);
    let r = schnorr_commitment(params, message, x);
    let e = schnorr_challenge(params, r as u64, message);
    lemma_mod_bound(hash_bytes(be_bytes(r as u64) + be_bytes(hash_bytes(message))) as int, q);
    assert((x as int) * e <= u64::MAX) by (nonlinear_arith)
        requires
            0 <= x < q,
            0 <= e < q,
            q <= 100002,
    ;
    let y = (pow(gi, x as nat) % p) as u64;
    let sig = schnorr_sign_spec(params, message, x);
    lemma_mod_bound(pow(gi, sig.s as nat), p);
    lemma_mod_bound(pow(y as int, sig.e as nat), p);
    let a = pow(gi, sig.s as nat) % p;
    let b = pow(y as int, sig.e as nat) % p;
    assert(a * b <= u64::MAX) by (nonlinear_arith)
        requires
            0 <= a < p,
            0 <= b < p,
            p <= 100003,
    ;
}

} // verus!
