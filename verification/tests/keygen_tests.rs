use digital_signature_rs::keygen::{
    derive_u64, hash_message_nonce, hash_pair, hash_u64, is_prime, mod_exp, simple_hash,
};

#[test]
fn simple_hash_deterministic() {
    let h1 = simple_hash(b"hello");
    let h2 = simple_hash(b"hello");
    assert_eq!(h1, h2);
}

#[test]
fn simple_hash_different_inputs() {
    let h1 = simple_hash(b"hello");
    let h2 = simple_hash(b"world");
    assert_ne!(h1, h2);
}

#[test]
fn hash_u64_deterministic() {
    assert_eq!(hash_u64(42), hash_u64(42));
}

#[test]
fn hash_pair_order_matters() {
    let h1 = hash_pair(1, 2);
    let h2 = hash_pair(2, 1);
    assert_ne!(h1, h2);
}

#[test]
fn hash_message_nonce_different() {
    let h1 = hash_message_nonce(b"test", 0);
    let h2 = hash_message_nonce(b"test", 1);
    assert_ne!(h1, h2);
}

#[test]
fn mod_exp_simple() {
    assert_eq!(mod_exp(2, 10, 1000), 24);
}

#[test]
fn mod_exp_fermat() {
    assert_eq!(mod_exp(3, 10, 11), 1);
}

#[test]
fn is_prime_basic() {
    assert!(is_prime(2));
    assert!(is_prime(3));
    assert!(is_prime(5));
    assert!(is_prime(7));
    assert!(!is_prime(4));
    assert!(!is_prime(9));
}

#[test]
fn derive_u64_different_contexts() {
    let a = derive_u64(42, 1);
    let b = derive_u64(42, 2);
    assert_ne!(a, b);
}

#[test]
fn mod_exp_identity() {
    assert_eq!(mod_exp(5, 0, 7), 1);
}

#[test]
fn mod_exp_base_zero() {
    assert_eq!(mod_exp(0, 5, 7), 0);
}

// Known FNV-1a (64-bit) values.
#[test]
fn simple_hash_known_values() {
    assert_eq!(simple_hash(b""), 0xcbf29ce484222325);
    assert_eq!(simple_hash(b"a"), 0xaf63dc4c8601ec8c);
    assert_eq!(simple_hash(b"foobar"), 0x85944171f73967e8);
}

#[test]
fn hash_u64_is_hash_of_big_endian_bytes() {
    let v: u64 = 0x0102030405060708;
    assert_eq!(hash_u64(v), simple_hash(&[1, 2, 3, 4, 5, 6, 7, 8]));
    assert_eq!(hash_u64(0), simple_hash(&[0u8; 8]));
}

#[test]
fn hash_pair_is_hash_of_concatenation() {
    let mut bytes = 7u64.to_be_bytes().to_vec();
    bytes.extend_from_slice(&9u64.to_be_bytes());
    assert_eq!(hash_pair(7, 9), simple_hash(&bytes));
    assert_eq!(derive_u64(7, 9), hash_pair(7, 9));
}

#[test]
fn hash_message_nonce_is_hash_of_message_then_nonce() {
    let mut bytes = b"msg".to_vec();
    bytes.extend_from_slice(&258u64.to_be_bytes());
    assert_eq!(hash_message_nonce(b"msg", 258), simple_hash(&bytes));
    assert_eq!(hash_message_nonce(b"", 5), hash_u64(5));
}

#[test]
fn mod_exp_edge_cases() {
    assert_eq!(mod_exp(12345, 678, 1), 0);
    assert_eq!(mod_exp(0, 0, 7), 1);
    assert_eq!(mod_exp(10, 3, 7), 6);
    assert_eq!(mod_exp(u64::MAX, u64::MAX, u64::MAX), 0);
    // 2^64 - 1 = 3 * 5 * 17 * 257 * 641 * 65537 * 6700417
    assert_eq!(mod_exp(2, 64, 1_000_000_007), 582344008);
    assert_eq!(mod_exp(u64::MAX - 1, 2, u64::MAX), 1);
}

#[test]
fn mod_exp_fermat_little_theorem() {
    for a in 1..23u64 {
        assert_eq!(mod_exp(a, 22, 23), 1);
    }
    assert_eq!(mod_exp(2, 100002, 100003), 1);
}

#[test]
fn is_prime_edge_cases() {
    assert!(!is_prime(0));
    assert!(!is_prime(1));
    assert!(!is_prime(25));
    assert!(!is_prime(35));
    assert!(!is_prime(49));
    assert!(is_prime(23));
    assert!(is_prime(61));
    assert!(is_prime(100003));
    assert!(is_prime(1_000_000_007));
    assert!(is_prime(4294967291));
    assert!(!is_prime(4294967291u64 * 4294967279));
    assert!(!is_prime(u64::MAX));
}
