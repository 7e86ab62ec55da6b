//! Simplified RSA-PSS style signature scheme.
//!
//! Uses textbook RSA with a simple PSS-like padding scheme.
//!
//! **WARNING**: This is a simplified educational implementation. Real RSA-PSS
//! uses proper padding (MGF1), proper key generation, and much larger keys.

use vstd::prelude::*;
use vstd::arithmetic::div_mod::*;
use vstd::arithmetic::mul::*;
use vstd::arithmetic::power::*;

use crate::keygen::{
    be_bytes, big_endian_digits, hash_bytes, hash_u64, lemma_be_bytes_are_digits, mod_exp, simple_hash,
};
use crate::number_theory::{
    gcd_spec, is_prime_spec, lemma_mod_inverse_unique, lemma_prime_by_trial_division,
    lemma_rsa_exponent,
};

pub use crate::number_theory::mod_inverse;

verus! {

/// RSA public key.
#[derive(Debug, Clone, PartialEq, Eq, Structural)]
pub struct RsaPublicKey {
    /// Modulus n = p * q.
    pub n: u64,
    /// Public exponent e.
    pub e: u64,
}

/// RSA private key.
#[derive(Debug, Clone)]
pub struct RsaPrivateKey {
    /// Modulus n = p * q.
    pub n: u64,
    /// Private exponent d.
    pub d: u64,
}

/// RSA key pair.
#[derive(Debug, Clone)]
pub struct RsaKeyPair {
    /// Public key.
    pub public: RsaPublicKey,
    /// Private key.
    pub private: RsaPrivateKey,
    /// First prime factor.
    pub p: u64,
    /// Second prime factor.
    pub q: u64,
}

/// Euler's totient of `p * q` for primes `p != q`: `(p - 1) * (q - 1)`.
pub open spec fn totient(p: u64, q: u64) -> int {
    (p - 1) * (q - 1)
}

/// `kp` is the key pair that `generate(p, q, e)` builds: modulus `p * q`,
/// exponent `e`, and `d` the inverse of `e` modulo the totient, below it.
pub open spec fn rsa_keys_from(p: u64, q: u64, e: u64, kp: RsaKeyPair) -> bool {
    let phi = totient(p, q);
    &&& kp.public.n == p * q
    &&& kp.public.e == e
    &&& kp.private.n == p * q
    &&& kp.p == p
    &&& kp.q == q
    &&& kp.private.d < phi
    &&& ((e * kp.private.d) as int) % phi == 1int % phi
}

/// The padded message representative: the message hash mixed with a salt
/// that is the hash of the modulus, reduced modulo `n`.
pub open spec fn pss_encode_spec(message: Seq<u8>, n: u64) -> int {
    ((hash_bytes(message) ^ hash_bytes(be_bytes(n))) as int) % (n as int)
}

/// The signature value: the representative raised to `d` modulo `n`.
pub open spec fn rsa_sign_spec(message: Seq<u8>, n: u64, d: u64) -> int {
    pow(pss_encode_spec(message, n), d as nat) % (n as int)
}

/// Verification: the signature raised to `e` modulo `n` is the representative.
pub open spec fn rsa_verify_spec(message: Seq<u8>, value: int, n: u64, e: u64) -> bool {
    pow(value, e as nat) % (n as int) == pss_encode_spec(message, n)
}

impl RsaKeyPair {
    /// Generate an RSA key pair from two primes and a public exponent.
    ///
    /// The primes p and q should be distinct. The public exponent e must be
    /// coprime to (p-1)(q-1); otherwise `None` is returned.
    pub fn generate(p: u64, q: u64, e: u64) -> (res: Option<Self>)
        requires
            p >= 1,
            q >= 1,
            p * q <= u64::MAX,
            totient(p, q) != 0 || e != 1,
        ensures
            res is Some <==> gcd_spec(e as nat, totient(p, q) as nat) == 1,
            res matches Some(kp) ==> rsa_keys_from(p, q, e, kp),
            res matches Some(kp) ==> {
                &&& kp.public.n == p * q
                &&& kp.private.n == p * q
                &&& kp.public.e == e
                &&& kp.p == p
                &&& kp.q == q
                &&& kp.private.d < (p - 1) * (q - 1)
                &&& ((e as int) * (kp.private.d as int)) % ((p - 1) * (q - 1)) == 1int % ((p - 1) * (q - 1))
            },
    {
        assert((p - 1) * (q - 1) <= p * q) by (nonlinear_arith)
            requires p >= 1, q >= 1;
        assert((p - 1) * (q - 1) >= 0) by (nonlinear_arith)
            requires p >= 1, q >= 1;
        let n = p * q;
        let phi = (p - 1) * (q - 1);

        // Ensure e and phi are coprime
        if gcd(e, phi) != 1 {
            return None;
        }

        let d = mod_inverse(e, phi)?;

        Some(Self {
            public: RsaPublicKey { n, e },
            private: RsaPrivateKey { n, d },
            p,
            q,
        })
    }

    /// Small demo key pair (p = 61, q = 53, e = 17, hence d = 2753).
    pub fn demo() -> (kp: Self)
        ensures
            rsa_keys_from(61, 53, 17, kp),
            kp.public.n == 3233,
            kp.private.d == 2753,
    {
        proof {
            assert(gcd_spec(1, 0) == 1);
            assert(gcd_spec(8, 1) == 1);
            assert(gcd_spec(9, 8) == 1);
            assert(gcd_spec(17, 9) == 1);
            assert(gcd_spec(3120, 17) == 1);
            assert(gcd_spec(17, 3120) == 1);
        }
        let kp = Self::generate(61, 53, 17).expect("demo key generation failed");
        proof {
            assert((17 * 2753) % 3120 == 1int);
            lemma_mod_inverse_unique(17, 3120, kp.private.d as nat, 2753);
        }
        kp
    }
}

/// An RSA-PSS style signature.
#[derive(Debug, Clone, PartialEq, Eq, Structural)]
pub struct RsaSignature {
    /// The signature value (padded hash signed with private key).
    pub value: u64,
}

/// RSA-PSS style signer.
#[derive(Debug, Clone)]
pub struct RsaPssSigner;

impl RsaPssSigner {
    /// Create a new signer.
    pub fn new() -> (s: Self)
        ensures
            s == RsaPssSigner,
    {
        Self
    }

    /// PSS-style encode: hash the message and add simple padding.
    fn pss_encode(message: &[u8], n: u64) -> (r: u64)
        requires
            n > 0,
        ensures
            r == pss_encode_spec(message@, n),
            r == ((hash_bytes(message@) ^ hash_bytes(be_bytes(n))) as int) % (n as int),
            r < n,
    {
        let h = simple_hash(message);
        // Simple padding: XOR hash with a salt derived from n
        let salt = hash_u64(n);
        (h ^ salt) % n
    }

    /// Sign a message.
    pub fn sign(&self, message: &[u8], keypair: &RsaKeyPair) -> (sig: RsaSignature)
        requires
            keypair.public.n > 0,
        ensures
            sig.value == rsa_sign_spec(message@, keypair.public.n, keypair.private.d),
            sig.value == pow(
                ((hash_bytes(message@) ^ hash_bytes(be_bytes(keypair.public.n))) as int) % (
                keypair.public.n as int),
                keypair.private.d as nat,
            ) % (keypair.public.n as int),
    {
        let encoded = Self::pss_encode(message, keypair.public.n);
        let sig = mod_exp(encoded, keypair.private.d, keypair.public.n);
        RsaSignature { value: sig }
    }

    /// Verify a signature.
    pub fn verify(&self, message: &[u8], sig: &RsaSignature, pk: &RsaPublicKey) -> (ok: bool)
        requires
            pk.n > 0,
        ensures
            ok == rsa_verify_spec(message@, sig.value as int, pk.n, pk.e),
            ok == (pow(sig.value as int, pk.e as nat) % (pk.n as int) == ((hash_bytes(message@)
                ^ hash_bytes(be_bytes(pk.n))) as int) % (pk.n as int)),
    {
        // Decrypt signature with public key
        let decrypted = mod_exp(sig.value, pk.e, pk.n);
        // Re-encode message and compare
        let expected = Self::pss_encode(message, pk.n);
        decrypted == expected
    }
}

impl Default for RsaPssSigner {
    fn default() -> (s: Self)
        ensures
            s == RsaPssSigner,
    {
        Self::new()
    }
}

/// Compute GCD of two numbers.
pub fn gcd(a: u64, b: u64) -> (g: u64)
    ensures
        g == gcd_spec(a as nat, b as nat),
{
    let ghost a0 = a as nat;
    let ghost b0 = b as nat;
    let mut a = a;
    let mut b = b;
    while b != 0
        invariant
            gcd_spec(a as nat, b as nat) == gcd_spec(a0, b0),
        decreases b,
    {
        let t = b;
        b = a % b;
        a = t;
    }
    a
}


/// Raising to `d` and then to `e` (or the other way round) modulo `n` gives
/// back every residue, for keys built from two distinct primes.
proof fn lemma_rsa_keys_invert(p: u64, q: u64, e: u64, kp: RsaKeyPair, m: nat, x: nat, y: nat)
    requires
        is_prime_spec(p as int),
        is_prime_spec(q as int),
        p != q,
        rsa_keys_from(p, q, e, kp),
        m < kp.public.n,
        x * y == e * kp.private.d,
    ensures
        pow(pow(m as int, x) % (kp.public.n as int), y) % (kp.public.n as int) == m,
{
    let n = kp.public.n as int;
    lemma_mul_strictly_positive(p as int, q as int);
    lemma_pow_mod_noop(pow(m as int, x), y, n);
    lemma_pow_multiplies(m as int, x, y);
    lemma_rsa_exponent(m, p as nat, q as nat, x * y);
    lemma_small_mod(m, n as nat);
}

/// Textbook RSA is invertible: for a key pair built by `generate` from two
/// distinct primes, decrypting (raising to `d`) the encryption (raising to
/// `e`) of any `m < n` gives `m` back.
pub proof fn lemma_rsa_decrypt_encrypt(p: u64, q: u64, e: u64, kp: RsaKeyPair, m: nat)
    requires
        is_prime_spec(p as int),
        is_prime_spec(q as int),
        p != q,
        rsa_keys_from(p, q, e, kp),
        m < kp.public.n,
    ensures
        pow(pow(m as int, e as nat) % (kp.public.n as int), kp.private.d as nat) % (
        kp.public.n as int) == m,
{
    lemma_rsa_keys_invert(p, q, e, kp, m, e as nat, kp.private.d as nat);
}

/// A signature made with a key pair built by `generate` from two distinct
/// primes verifies, for every message, under the pair's public key.
pub proof fn lemma_rsa_sign_verify(p: u64, q: u64, e: u64, kp: RsaKeyPair, message: Seq<u8>)
    requires
        is_prime_spec(p as int),
        is_prime_spec(q as int),
        p != q,
        rsa_keys_from(p, q, e, kp),
    ensures
        rsa_verify_spec(
            message,
            rsa_sign_spec(message, kp.public.n, kp.private.d),
            kp.public.n,
            kp.public.e,
        ),
{
    let n = kp.public.n as int;
    lemma_mul_strictly_positive(p as int, q as int);
    let enc = pss_encode_spec(message, kp.public.n);
    lemma_mod_bound((hash_bytes(message) ^ hash_bytes(be_bytes(kp.public.n))) as int, n);
    lemma_mul_is_commutative(e as int, kp.private.d as int);
    lemma_rsa_keys_invert(p, q, e, kp, enc as nat, kp.private.d as nat, e as nat);
}


/// What a signature is: raised to the public exponent modulo `n`, it gives
/// the message hash XOR-ed with the hash of the eight big-endian bytes of `n`,
/// reduced modulo `n` (for a key pair built from two distinct primes).
pub proof fn lemma_rsa_signature_opens_to_salted_hash(
    p: u64,
    q: u64,
    e: u64,
    kp: RsaKeyPair,
    message: Seq<u8>,
)
    requires
        is_prime_spec(p as int),
        is_prime_spec(q as int),
        p != q,
        rsa_keys_from(p, q, e, kp),
    ensures
        pow(rsa_sign_spec(message, kp.public.n, kp.private.d), e as nat) % (kp.public.n as int)
            == ((hash_bytes(message) ^ hash_bytes(big_endian_digits(kp.public.n))) as int) % (
        kp.public.n as int),
{
    lemma_rsa_sign_verify(p, q, e, kp, message);
    lemma_be_bytes_are_digits(kp.public.n);
}

/// What verification accepts: exactly the values `v` with
/// `v^e mod n == (H(m) XOR H(big-endian bytes of n)) mod n`.
pub proof fn lemma_rsa_verify_accepts(message: Seq<u8>, v: int, n: u64, e: u64)
    ensures
        rsa_verify_spec(message, v, n, e) <==> pow(v, e as nat) % (n as int) == ((hash_bytes(message)
            ^ hash_bytes(big_endian_digits(n))) as int) % (n as int),
{
    lemma_be_bytes_are_digits(n);
}

/// 61 and 53 are prime.
proof fn lemma_demo_primes()
    ensures
        is_prime_spec(61),
        is_prime_spec(53),
{
    assert forall|d: int| 2 <= d < 8 implies #[trigger] (61int % d) != 0 by {
        if d == 2 {
            assert(61int % 2 == 1);
        } else if d == 3 {
            assert(61int % 3 == 1);
        } else if d == 4 {
            assert(61int % 4 == 1);
        } else if d == 5 {
            assert(61int % 5 == 1);
        } else if d == 6 {
            assert(61int % 6 == 1);
        } else {
            assert(61int % 7 == 5);
        }
    }
    assert forall|d: int| 2 <= d < 8 implies #[trigger] (53int % d) != 0 by {
        if d == 2 {
            assert(53int % 2 == 1);
        } else if d == 3 {
            assert(53int % 3 == 2);
        } else if d == 4 {
            assert(53int % 4 == 1);
        } else if d == 5 {
            assert(53int % 5 == 3);
        } else if d == 6 {
            assert(53int % 6 == 5);
        } else {
            assert(53int % 7 == 4);
        }
    }
    lemma_prime_by_trial_division(61, 8);
    lemma_prime_by_trial_division(53, 8);
}

/// The demo key pair signs every message so that the signature verifies, and
/// decrypts every encryption of a value below its modulus.
pub proof fn lemma_rsa_demo_keys(kp: RsaKeyPair, message: Seq<u8>, m: nat)
    requires
        rsa_keys_from(61, 53, 17, kp),
        m < 3233,
    ensures
        rsa_verify_spec(message, rsa_sign_spec(message, kp.public.n, kp.private.d), kp.public.n, kp.public.e),
        pow(pow(m as int, 17) % 3233, kp.private.d as nat) % 3233 == m,
{
    lemma_demo_primes();
    lemma_rsa_sign_verify(61, 53, 17, kp, message);
    lemma_rsa_decrypt_encrypt(61, 53, 17, kp, m);
}

} // verus!
