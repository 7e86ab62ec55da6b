//! Key generation utilities: a simple FNV-1a style hash, helpers that hash
//! integers and messages, modular exponentiation and a primality test.

use vstd::prelude::*;
use vstd::arithmetic::div_mod::*;
use vstd::arithmetic::mul::*;
use vstd::arithmetic::power::*;

use crate::number_theory::{is_prime_spec, lemma_divides_factor, lemma_prime_by_trial_division};

verus! {

/// Starting value of the hash.
pub const FNV_OFFSET: u64 = 0xCBF29CE484222325;

/// Multiplier applied after each byte.
pub const FNV_PRIME: u64 = 0x100000001B3;

/// One round of the hash: mix in a byte, then multiply modulo 2^64.
pub open spec fn fnv_step(h: u64, byte: u8) -> u64 {
    vstd::wrapping::u64_specs::wrapping_mul(h ^ (byte as u64), FNV_PRIME)
}

/// The hash of a byte sequence: the rounds applied from left to right,
/// starting from `FNV_OFFSET`.
pub open spec fn hash_bytes(data: Seq<u8>) -> u64
    decreases data.len(),
{
    if data.len() == 0 {
        FNV_OFFSET
    } else {
        fnv_step(hash_bytes(data.drop_last()), data.last())
    }
}

/// The eight big-endian bytes of a `u64`.
pub open spec fn be_bytes(v: u64) -> Seq<u8> {
    seq![
        (v >> 56u64) as u8,
        (v >> 48u64) as u8,
        (v >> 40u64) as u8,
        (v >> 32u64) as u8,
        (v >> 24u64) as u8,
        (v >> 16u64) as u8,
        (v >> 8u64) as u8,
        v as u8,
    ]
}

/// The hash of the empty sequence is the offset basis, and appending a byte
/// XORs it into the running hash and multiplies by the prime modulo 2^64.
pub proof fn lemma_hash_bytes_push(data: Seq<u8>, byte: u8)
    ensures
        hash_bytes(Seq::empty()) == 0xCBF29CE484222325u64,
        hash_bytes(data.push(byte)) as int == (((hash_bytes(data) ^ (byte as u64)) as int)
            * 0x100000001B3int) % 0x1_0000_0000_0000_0000int,
{
    assert(data.push(byte).drop_last() =~= data);
}

/// The eight base-256 digits of `v`, most significant first.
pub open spec fn big_endian_digits(v: u64) -> Seq<u8> {
    seq![
        ((v / 0x100000000000000u64) % 256u64) as u8,
        ((v / 0x1000000000000u64) % 256u64) as u8,
        ((v / 0x10000000000u64) % 256u64) as u8,
        ((v / 0x100000000u64) % 256u64) as u8,
        ((v / 0x1000000u64) % 256u64) as u8,
        ((v / 0x10000u64) % 256u64) as u8,
        ((v / 0x100u64) % 256u64) as u8,
        (v % 256u64) as u8,
    ]
}

/// The bytes that the hashing helpers append for an integer are its eight
/// base-256 digits, most significant first: all 64 bits of it.
pub proof fn lemma_be_bytes_are_digits(v: u64)
    ensures
        be_bytes(v) == big_endian_digits(v),
        be_bytes(v).len() == 8,
{
    assert((v >> 56u64) as u8 == ((v / 0x100000000000000u64) % 256u64) as u8) by (bit_vector);
    assert((v >> 48u64) as u8 == ((v / 0x1000000000000u64) % 256u64) as u8) by (bit_vector);
    assert((v >> 40u64) as u8 == ((v / 0x10000000000u64) % 256u64) as u8) by (bit_vector);
    assert((v >> 32u64) as u8 == ((v / 0x100000000u64) % 256u64) as u8) by (bit_vector);
    assert((v >> 24u64) as u8 == ((v / 0x1000000u64) % 256u64) as u8) by (bit_vector);
    assert((v >> 16u64) as u8 == ((v / 0x10000u64) % 256u64) as u8) by (bit_vector);
    assert((v >> 8u64) as u8 == ((v / 0x100u64) % 256u64) as u8) by (bit_vector);
    assert(v as u8 == (v % 256u64) as u8) by (bit_vector);
    assert(be_bytes(v) =~= big_endian_digits(v));
}

/// Distinct integers have distinct byte encodings.
pub proof fn lemma_be_bytes_injective(a: u64, b: u64)
    requires
        be_bytes(a) == be_bytes(b),
    ensures
        a == b,
{
    assert(be_bytes(a)[0] == be_bytes(b)[0]);
    assert(be_bytes(a)[1] == be_bytes(b)[1]);
    assert(be_bytes(a)[2] == be_bytes(b)[2]);
    assert(be_bytes(a)[3] == be_bytes(b)[3]);
    assert(be_bytes(a)[4] == be_bytes(b)[4]);
    assert(be_bytes(a)[5] == be_bytes(b)[5]);
    assert(be_bytes(a)[6] == be_bytes(b)[6]);
    assert(be_bytes(a)[7] == be_bytes(b)[7]);
    assert(a == b) by (bit_vector)
        requires
            (a >> 56u64) as u8 == (b >> 56u64) as u8,
            (a >> 48u64) as u8 == (b >> 48u64) as u8,
            (a >> 40u64) as u8 == (b >> 40u64) as u8,
            (a >> 32u64) as u8 == (b >> 32u64) as u8,
            (a >> 24u64) as u8 == (b >> 24u64) as u8,
            (a >> 16u64) as u8 == (b >> 16u64) as u8,
            (a >> 8u64) as u8 == (b >> 8u64) as u8,
            a as u8 == b as u8,
    ;
}

/// A simple deterministic hash function (FNV-1a inspired).
///
/// **NOT cryptographically secure** — for educational use only.
pub fn simple_hash(data: &[u8]) -> (h: u64)
    ensures
        h == hash_bytes(data@),
{
    let mut hash: u64 = FNV_OFFSET;
    let n = data.len();
    for i in 0..n
        invariant
            n == data@.len(),
            hash == hash_bytes(data@.take(i as int)),
    {
        let byte = data[i];
        proof {
            assert(data@.take(i + 1).drop_last() =~= data@.take(i as int));
        }
        hash ^= byte as u64;
        hash = hash.wrapping_mul(FNV_PRIME);
    }
    proof {
        assert(data@.take(n as int) =~= data@);
    }
    hash
}

/// The big-endian bytes of `v` in a fresh vector.
fn be_bytes_vec(v: u64) -> (bytes: Vec<u8>)
    ensures
        bytes@ == be_bytes(v),
{
    let bytes = vec![
        (v >> 56u64) as u8,
        (v >> 48u64) as u8,
        (v >> 40u64) as u8,
        (v >> 32u64) as u8,
        (v >> 24u64) as u8,
        (v >> 16u64) as u8,
        (v >> 8u64) as u8,
        v as u8,
    ];
    proof {
        assert(bytes@ =~= be_bytes(v));
    }
    bytes
}

/// Hash a u64 value into another u64.
pub fn hash_u64(value: u64) -> (h: u64)
    ensures
        h == hash_bytes(be_bytes(value)),
{
    let bytes = be_bytes_vec(value);
    simple_hash(bytes.as_slice())
}

/// Hash two u64 values together.
pub fn hash_pair(a: u64, b: u64) -> (h: u64)
    ensures
        h == hash_bytes(be_bytes(a) + be_bytes(b)),
{
    let mut data = be_bytes_vec(a);
    let mut tail = be_bytes_vec(b);
    data.append(&mut tail);
    simple_hash(data.as_slice())
}

/// Hash a message (bytes) with a u64 nonce.
pub fn hash_message_nonce(message: &[u8], nonce: u64) -> (h: u64)
    ensures
        h == hash_bytes(message@ + be_bytes(nonce)),
{
    let mut data = vstd::slice::slice_to_vec(message);
    let mut tail = be_bytes_vec(nonce);
    data.append(&mut tail);
    simple_hash(data.as_slice())
}

/// Generate a deterministic random-looking u64 from a seed.
pub fn derive_u64(seed: u64, context: u64) -> (h: u64)
    ensures
        h == hash_bytes(be_bytes(seed) + be_bytes(context)),
{
    hash_pair(seed, context)
}


/// One round of square-and-multiply keeps `result * base^exp (mod m)` fixed.
proof fn lemma_square_multiply_step(r: int, b: int, e: nat, m: int)
    requires
        m > 0,
    ensures
        (((r * pow(b, e % 2)) % m) * pow((b * b) % m, e / 2)) % m == (r * pow(b, e)) % m,
{
    let h = e / 2;
    let bit = e % 2;
    assert(e == bit + 2 * h);
    // pow(b*b, h) == pow(b, 2h)
    lemma_square_is_pow2(b);
    lemma_pow_multiplies(b, 2, h);
    assert(pow(b * b, h) == pow(b, 2 * h));
    lemma_pow_adds(b, bit as nat, (2 * h) as nat);
    assert(pow(b, e) == pow(b, bit as nat) * pow(b * b, h));
    // drop the inner reductions
    lemma_pow_mod_noop(b * b, h, m);
    let x = r * pow(b, bit as nat);
    let y = pow(b * b, h);
    lemma_mul_mod_noop_left(x, pow((b * b) % m, h), m);
    lemma_mul_mod_noop_right(x, pow((b * b) % m, h), m);
    lemma_mul_mod_noop_right(x, y, m);
    assert((x * pow((b * b) % m, h)) % m == (x * y) % m);
    lemma_mul_is_associative(r, pow(b, bit as nat), y);
}

/// Simple modular exponentiation (shared across modules).
///
/// Returns `base^exp mod modulus`.
pub fn mod_exp(base: u64, exp: u64, modulus: u64) -> (r: u64)
    requires
        modulus > 0,
    ensures
        r == pow(base as int, exp as nat) % (modulus as int),
        r < modulus,
{
    if modulus == 1 {
        return 0;
    }
    let ghost b0 = base as int;
    let ghost e0 = exp as nat;
    let mut result: u128 = 1;
    let mut base: u128 = (base as u128) % (modulus as u128);
    let modulus = modulus as u128;
    let mut exp = exp;
    proof {
        lemma_pow_mod_noop(b0, e0, modulus as int);
        lemma_pow_positive(2, 0);
        assert(pow(base as int, exp as nat) % (modulus as int) == pow(b0, e0) % (modulus as int));
        lemma_small_mod(pow(b0, e0) as nat % (modulus as nat), modulus as nat);
    }
    while exp > 0
        invariant
            2 <= modulus <= u64::MAX,
            result < modulus,
            base < modulus,
            ((result as int) * pow(base as int, exp as nat)) % (modulus as int)
                == pow(b0, e0) % (modulus as int),
        decreases exp,
    {
        let ghost r_old = result as int;
        let ghost b_old = base as int;
        let ghost e_old = exp as nat;
        assert(result * base < modulus * modulus) by (nonlinear_arith)
            requires result < modulus, base < modulus;
        assert(modulus * modulus <= u64::MAX * u64::MAX) by (nonlinear_arith)
            requires modulus <= u64::MAX;
        assert(base * base < modulus * modulus) by (nonlinear_arith)
            requires base < modulus;
        if exp % 2 == 1 {
            result = (result * base) % modulus;
            proof {
                reveal_with_fuel(pow, 2);
                assert(pow(b_old, (e_old % 2) as nat) == b_old);
            }
        } else {
            proof {
                reveal(pow);
                assert(pow(b_old, (e_old % 2) as nat) == 1);
                lemma_small_mod(r_old as nat, modulus as nat);
            }
        }
        assert(exp >> 1 == exp / 2) by (bit_vector);
        exp >>= 1;
        base = (base * base) % modulus;
        proof {
            lemma_square_multiply_step(r_old, b_old, e_old, modulus as int);
        }
    }
    proof {
        reveal(pow);
        assert(pow(base as int, 0) == 1);
        lemma_small_mod(result as nat, modulus as nat);
    }
    result as u64
}

/// Simple primality test.
#[verifier::spinoff_prover]
#[verifier::rlimit(40)]
pub fn is_prime(n: u64) -> (b: bool)
    ensures
        b == is_prime_spec(n as int),
{
    if n < 2 {
        return false;
    }
    if n < 4 {
        assert(is_prime_spec(n as int)) by {
            assert forall|d: int| 2 <= d < n implies #[trigger] ((n as int) % d) != 0 by {
                assert(d == 2 && n == 3);
            }
        }
        return true;
    }
    if n.is_multiple_of(2) || n.is_multiple_of(3) {
        assert(!is_prime_spec(n as int)) by {
            if n % 2 == 0 {
                assert(((n as int) % 2) == 0);
            } else {
                assert(((n as int) % 3) == 0);
            }
        }
        return false;
    }
    let mut i = 5u64;
    assert forall|d: int| 2 <= d < 5 implies #[trigger] ((n as int) % d) != 0 by {
        if d == 4 && (n as int) % d == 0 {
            lemma_divides_factor(n as int, 2, 2);
        }
    }
    // The bound `i * i <= n` is tested as `i <= n / i`, which cannot overflow.
    while i <= n / i
        invariant
            5 <= i,
            i % 6 == 5,
            n >= 4,
            n % 2 != 0,
            n % 3 != 0,
            forall|d: int| 2 <= d < i ==> #[trigger] ((n as int) % d) != 0,
        decreases n - i,
    {
        assert(i * i <= n) by (nonlinear_arith)
            requires i <= n / i, i > 0;
        assert(i + 2 < n) by (nonlinear_arith)
            requires i * i <= n, i >= 5;
        if n.is_multiple_of(i) || n.is_multiple_of(i + 2) {
            assert(!is_prime_spec(n as int)) by {
                if n % i == 0 {
                    assert(((n as int) % (i as int)) == 0);
                } else {
                    assert(((n as int) % ((i + 2) as int)) == 0);
                }
            }
            return false;
        }
        let ghost i0 = i as int;
        i += 6;
        proof {
            assert forall|d: int| 2 <= d < i implies #[trigger] ((n as int) % d) != 0 by {
                if d >= i0 && d != i0 && d != i0 + 2 {
                    if d % 2 == 0 {
                        if (n as int) % d == 0 {
                            lemma_fundamental_div_mod(d, 2);
                            lemma_divides_factor(n as int, 2, d / 2);
                        }
                    } else {
                        assert(d == i0 + 4);
                        assert(d % 3 == 0);
                        if (n as int) % d == 0 {
                            lemma_fundamental_div_mod(d, 3);
                            lemma_divides_factor(n as int, 3, d / 3);
                        }
                    }
                }
            }
        }
    }
    proof {
        assert((i as int) * (i as int) > n as int) by (nonlinear_arith)
            requires i > n / i, i > 0;
        lemma_prime_by_trial_division(n as int, i as int);
    }
    true
}

} // verus!
