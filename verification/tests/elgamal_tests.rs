use digital_signature_rs::elgamal::{
    mod_inverse, ElGamalKeyPair, ElGamalPublicKey, ElGamalSignature, ElGamalSigner,
};
use digital_signature_rs::keygen::mod_exp;

fn test_params() -> (u64, u64) {
    (23, 5) // p=23, g=5
}

#[test]
fn elgamal_sign_verify_valid() {
    let (p, g) = test_params();
    let signer = ElGamalSigner::new(p, g);
    let kp = ElGamalKeyPair::generate(p, g, 42);

    let msg = b"test message";
    let sig = signer.sign(msg, &kp);
    assert!(signer.verify(msg, &sig, &kp.public));
}

#[test]
fn elgamal_tampered_message_fails() {
    let (p, g) = test_params();
    let signer = ElGamalSigner::new(p, g);
    let kp = ElGamalKeyPair::generate(p, g, 42);

    let sig = signer.sign(b"original", &kp);
    assert!(!signer.verify(b"tampered", &sig, &kp.public));
}

#[test]
fn elgamal_different_keys_different_sigs() {
    let (p, g) = test_params();
    let signer = ElGamalSigner::new(p, g);
    let kp1 = ElGamalKeyPair::generate(p, g, 1);
    let kp2 = ElGamalKeyPair::generate(p, g, 2);

    let msg = b"same message";
    let sig1 = signer.sign(msg, &kp1);
    let sig2 = signer.sign(msg, &kp2);

    assert_ne!(sig1.r, sig2.r);
}

#[test]
fn elgamal_wrong_key_fails() {
    let (p, g) = test_params();
    let signer = ElGamalSigner::new(p, g);
    let kp1 = ElGamalKeyPair::generate(p, g, 1);
    let kp2 = ElGamalKeyPair::generate(p, g, 2);

    let sig = signer.sign(b"msg", &kp1);
    assert!(!signer.verify(b"msg", &sig, &kp2.public));
}

#[test]
fn elgamal_keypair_generation() {
    let kp = ElGamalKeyPair::generate(23, 5, 42);
    assert!(kp.private.x > 1);
    assert!(kp.private.x < 22);
    assert!(kp.public.y > 0);
    assert!(kp.public.y < 23);
}

#[test]
fn public_key_consistency() {
    let kp = ElGamalKeyPair::generate(23, 5, 7);
    let expected_y = mod_exp(5, kp.private.x, 23);
    assert_eq!(kp.public.y, expected_y);
}

#[test]
fn elgamal_mod_inverse_basic() {
    let inv = mod_inverse(3, 11).unwrap();
    assert_eq!((3 * inv) % 11, 1);
}

#[test]
fn elgamal_sign_verify_multiple_messages() {
    let (p, g) = test_params();
    let signer = ElGamalSigner::new(p, g);
    let kp = ElGamalKeyPair::generate(p, g, 42);

    let msgs: &[&[u8]] = &[b"msg1", b"msg2", b"msg3", b"another"];
    for msg in msgs {
        let sig = signer.sign(msg, &kp);
        assert!(signer.verify(msg, &sig, &kp.public), "failed for {:?}", msg);
    }
}

#[test]
fn elgamal_generate_exact_values() {
    // x = 42 % 20 + 2 = 4, y = 5^4 mod 23 = 625 mod 23 = 4
    let kp = ElGamalKeyPair::generate(23, 5, 42);
    assert_eq!(kp.private.x, 4);
    assert_eq!(kp.public, ElGamalPublicKey { p: 23, g: 5, y: 4 });
    assert_eq!(kp.private.p, 23);
    assert_eq!(kp.private.g, 5);
}

#[test]
fn elgamal_signature_satisfies_equation() {
    // r = g^k, and h ≡ x*r + k*s (mod p-1) for the k with g^k = r.
    let (p, g) = test_params();
    let signer = ElGamalSigner::new(p, g);
    let kp = ElGamalKeyPair::generate(p, g, 42);
    let sig = signer.sign(b"equation", &kp);
    assert!(sig.r > 0 && sig.r < p);
    assert!(sig.s < p - 1);
    let lhs = mod_exp(g, digital_signature_rs::keygen::simple_hash(b"equation") % (p - 1), p);
    let rhs = (mod_exp(kp.public.y, sig.r, p) * mod_exp(sig.r, sig.s, p)) % p;
    assert_eq!(lhs, rhs);
}

#[test]
fn elgamal_verify_rejects_out_of_range() {
    let (p, g) = test_params();
    let signer = ElGamalSigner::new(p, g);
    let kp = ElGamalKeyPair::generate(p, g, 42);
    let sig = signer.sign(b"m", &kp);
    assert!(!signer.verify(b"m", &ElGamalSignature { r: 0, s: sig.s }, &kp.public));
    assert!(!signer.verify(b"m", &ElGamalSignature { r: 23, s: sig.s }, &kp.public));
    assert!(!signer.verify(b"m", &ElGamalSignature { r: sig.r, s: 22 }, &kp.public));
}

#[test]
fn elgamal_all_seeds_verify() {
    let (p, g) = test_params();
    let signer = ElGamalSigner::new(p, g);
    for seed in 0..40u64 {
        let kp = ElGamalKeyPair::generate(p, g, seed);
        let sig = signer.sign(b"round trip", &kp);
        assert!(signer.verify(b"round trip", &sig, &kp.public));
    }
}

#[test]
fn elgamal_larger_prime() {
    let (p, g) = (1_000_003u64, 2u64);
    let signer = ElGamalSigner::new(p, g);
    let kp = ElGamalKeyPair::generate(p, g, 987654321);
    let sig = signer.sign(b"larger prime", &kp);
    assert!(signer.verify(b"larger prime", &sig, &kp.public));
    assert!(!signer.verify(b"larger primf", &sig, &kp.public));
}

#[test]
fn mod_inverse_cases() {
    assert_eq!(mod_inverse(3, 11), Some(4));
    assert_eq!(mod_inverse(17, 3120), Some(2753));
    assert_eq!(mod_inverse(2, 4), None);
    assert_eq!(mod_inverse(0, 7), None);
    assert_eq!(mod_inverse(5, 1), Some(0));
    assert_eq!(mod_inverse(5, 0), None);
    assert_eq!(mod_inverse(u64::MAX, u64::MAX - 1), Some(1));
    // 2 * (2^63) ≡ 1 (mod 2^64 - 1)
    assert_eq!(mod_inverse(2, u64::MAX), Some(1u64 << 63));
}
