use digital_signature_rs::keygen::{hash_message_nonce, simple_hash};
use digital_signature_rs::verify::{create_commitment, message_hash, verify_commitment, verify_hash};

#[test]
fn verify_hash_correct() {
    let msg = b"hello";
    let h = message_hash(msg);
    assert!(verify_hash(msg, h));
}

#[test]
fn verify_hash_tampered() {
    let h = message_hash(b"hello");
    assert!(!verify_hash(b"world", h));
}

#[test]
fn commitment_round_trip() {
    let msg = b"secret message";
    let nonce = 12345u64;
    let commitment = create_commitment(msg, nonce);
    assert!(verify_commitment(msg, nonce, commitment));
}

#[test]
fn commitment_wrong_nonce() {
    let msg = b"secret message";
    let commitment = create_commitment(msg, 12345);
    assert!(!verify_commitment(msg, 99999, commitment));
}

#[test]
fn commitment_wrong_message() {
    let commitment = create_commitment(b"original", 12345);
    assert!(!verify_commitment(b"modified", 12345, commitment));
}

#[test]
fn different_messages_different_hashes() {
    let h1 = message_hash(b"foo");
    let h2 = message_hash(b"bar");
    assert_ne!(h1, h2);
}

#[test]
fn message_hash_is_simple_hash() {
    assert_eq!(message_hash(b""), 0xcbf29ce484222325);
    assert_eq!(message_hash(b"abc"), simple_hash(b"abc"));
}

#[test]
fn commitment_is_hash_of_message_and_nonce() {
    assert_eq!(create_commitment(b"abc", 7), hash_message_nonce(b"abc", 7));
    let c = create_commitment(b"", 0);
    assert!(verify_commitment(b"", 0, c));
    assert!(!verify_commitment(b"", 0, c.wrapping_add(1)));
}

#[test]
fn verify_hash_empty_message() {
    assert!(verify_hash(b"", 0xcbf29ce484222325));
    assert!(!verify_hash(b"", 0));
}
