//! Signature verification utilities.

use vstd::prelude::*;

use crate::keygen::{
    be_bytes, big_endian_digits, hash_bytes, hash_message_nonce, lemma_be_bytes_are_digits,
    lemma_be_bytes_injective, simple_hash,
};

verus! {

/// `expected_hash` is the hash of `message`.
pub open spec fn hash_matches(message: Seq<u8>, expected_hash: u64) -> bool {
    hash_bytes(message) == expected_hash
}

/// Verify that a message has not been tampered with by comparing hashes.
pub fn verify_hash(message: &[u8], expected_hash: u64) -> (ok: bool)
    ensures
        ok == hash_matches(message@, expected_hash),
{
    simple_hash(message) == expected_hash
}

/// Compute a message hash.
pub fn message_hash(message: &[u8]) -> (h: u64)
    ensures
        h == hash_bytes(message@),
{
    simple_hash(message)
}

/// The commitment to `message` with `nonce`: the hash of the message
/// followed by the nonce's big-endian bytes.
pub open spec fn commitment_spec(message: Seq<u8>, nonce: u64) -> u64 {
    hash_bytes(message + be_bytes(nonce))
}

/// `commitment` opens to `message` with `nonce`.
pub open spec fn commitment_opens(message: Seq<u8>, nonce: u64, commitment: u64) -> bool {
    commitment_spec(message, nonce) == commitment
}

/// Verify a hash-based commitment.
pub fn verify_commitment(message: &[u8], nonce: u64, commitment: u64) -> (ok: bool)
    ensures
        ok == commitment_opens(message@, nonce, commitment),
        ok == (hash_bytes(message@ + be_bytes(nonce)) == commitment),
{
    hash_message_nonce(message, nonce) == commitment
}

/// Create a hash-based commitment.
pub fn create_commitment(message: &[u8], nonce: u64) -> (c: u64)
    ensures
        c == commitment_spec(message@, nonce),
        c == hash_bytes(message@ + be_bytes(nonce)),
{
    hash_message_nonce(message, nonce)
}

/// A message always verifies against the hash that `message_hash` computes for it.
pub proof fn lemma_hash_round_trip(message: Seq<u8>)
    ensures
        hash_matches(message, hash_bytes(message)),
{
}

/// A commitment made by `create_commitment` opens with the same message and nonce.
pub proof fn lemma_commitment_round_trip(message: Seq<u8>, nonce: u64)
    ensures
        commitment_opens(message, nonce, commitment_spec(message, nonce)),
{
}


/// A commitment is the hash of the message followed by all eight base-256
/// digits of the nonce, most significant first.
pub proof fn lemma_commitment_hashes_whole_nonce(message: Seq<u8>, nonce: u64)
    ensures
        commitment_spec(message, nonce) == hash_bytes(message + big_endian_digits(nonce)),
{
    lemma_be_bytes_are_digits(nonce);
}

/// Commitments with different nonces hash different byte strings, so they
/// can coincide only through a collision of the hash itself.
pub proof fn lemma_commitment_nonce_binding(message: Seq<u8>, nonce1: u64, nonce2: u64)
    requires
        nonce1 != nonce2,
    ensures
        message + big_endian_digits(nonce1) != message + big_endian_digits(nonce2),
        (hash_bytes(message + big_endian_digits(nonce1)) != hash_bytes(message + big_endian_digits(nonce2)))
            ==> commitment_spec(message, nonce1) != commitment_spec(message, nonce2),
{
    lemma_be_bytes_are_digits(nonce1);
    lemma_be_bytes_are_digits(nonce2);
    if message + be_bytes(nonce1) == message + be_bytes(nonce2) {
        assert(be_bytes(nonce1) =~= (message + be_bytes(nonce1)).subrange(
            message.len() as int,
            message.len() + 8int,
        ));
        assert(be_bytes(nonce2) =~= (message + be_bytes(nonce2)).subrange(
            message.len() as int,
            message.len() + 8int,
        ));
        lemma_be_bytes_injective(nonce1, nonce2);
    }
}

} // verus!
