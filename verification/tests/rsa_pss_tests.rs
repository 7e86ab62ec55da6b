use digital_signature_rs::keygen::mod_exp;
use digital_signature_rs::rsa_pss::{gcd, mod_inverse, RsaKeyPair, RsaPssSigner, RsaSignature};

#[test]
fn rsa_pss_sign_verify_valid() {
    let kp = RsaKeyPair::demo();
    let signer = RsaPssSigner::new();

    let sig = signer.sign(b"hello world", &kp);
    assert!(signer.verify(b"hello world", &sig, &kp.public));
}

#[test]
fn rsa_pss_tampered_message_fails() {
    let kp = RsaKeyPair::demo();
    let signer = RsaPssSigner::new();

    let sig = signer.sign(b"original", &kp);
    assert!(!signer.verify(b"modified", &sig, &kp.public));
}

#[test]
fn rsa_pss_wrong_key_fails() {
    let kp1 = RsaKeyPair::demo();
    let kp2 = RsaKeyPair::generate(59, 47, 17).unwrap();
    let signer = RsaPssSigner::new();

    let sig = signer.sign(b"msg", &kp1);
    assert!(!signer.verify(b"msg", &sig, &kp2.public));
}

#[test]
fn rsa_pss_different_keys_different_sigs() {
    let kp1 = RsaKeyPair::demo();
    let kp2 = RsaKeyPair::generate(59, 47, 17).unwrap();
    let signer = RsaPssSigner::new();

    let sig1 = signer.sign(b"same", &kp1);
    let sig2 = signer.sign(b"same", &kp2);
    assert_ne!(sig1, sig2);
}

#[test]
fn demo_key_pair() {
    let kp = RsaKeyPair::demo();
    assert_eq!(kp.public.n, 61 * 53);
    assert_eq!(kp.public.e, 17);
    assert!(kp.private.d > 0);
}

#[test]
fn key_pair_non_coprime_fails() {
    // e=2 and phi=(11-1)*(7-1)=60, gcd(2,60)=2 != 1
    let result = RsaKeyPair::generate(11, 7, 2);
    assert!(result.is_none());
}

#[test]
fn gcd_basic() {
    assert_eq!(gcd(12, 8), 4);
    assert_eq!(gcd(17, 13), 1);
}

#[test]
fn rsa_pss_mod_inverse_basic() {
    let inv = mod_inverse(17, 60).unwrap();
    assert_eq!((17 * inv) % 60, 1);
}

#[test]
fn rsa_pss_sign_verify_multiple_messages() {
    let kp = RsaKeyPair::demo();
    let signer = RsaPssSigner::new();

    let msgs: &[&[u8]] = &[b"msg1", b"msg2", b"a longer test message"];
    for msg in msgs {
        let sig = signer.sign(msg, &kp);
        assert!(signer.verify(msg, &sig, &kp.public));
    }
}

#[test]
fn signature_deterministic() {
    let kp = RsaKeyPair::demo();
    let signer = RsaPssSigner::new();

    let sig1 = signer.sign(b"same message", &kp);
    let sig2 = signer.sign(b"same message", &kp);
    assert_eq!(sig1, sig2);
}

#[test]
fn rsa_encryption_decryption() {
    let kp = RsaKeyPair::demo();
    let msg = 42u64;
    let encrypted = mod_exp(msg, kp.public.e, kp.public.n);
    let decrypted = mod_exp(encrypted, kp.private.d, kp.public.n);
    assert_eq!(decrypted, msg);
}

#[test]
fn demo_key_pair_exact_values() {
    let kp = RsaKeyPair::demo();
    assert_eq!(kp.private.d, 2753);
    assert_eq!(kp.private.n, 3233);
    assert_eq!((kp.p, kp.q), (61, 53));
}

#[test]
fn generate_other_keys() {
    // phi = 58 * 46 = 2668, 17 * 157 = 2669
    let kp = RsaKeyPair::generate(59, 47, 17).unwrap();
    assert_eq!(kp.public.n, 2773);
    assert_eq!(kp.private.d, 157);
    // With p = 1 the totient is 0, and gcd(3, 0) = 3, so there is no key pair
    assert!(RsaKeyPair::generate(1, 7, 3).is_none());
}

#[test]
fn gcd_edge_cases() {
    assert_eq!(gcd(0, 0), 0);
    assert_eq!(gcd(0, 9), 9);
    assert_eq!(gcd(9, 0), 9);
    assert_eq!(gcd(u64::MAX, u64::MAX - 1), 1);
    assert_eq!(gcd(3120, 17), 1);
}

#[test]
fn rsa_encryption_decryption_all_small_messages() {
    let kp = RsaKeyPair::demo();
    for msg in 0..200u64 {
        let encrypted = mod_exp(msg, kp.public.e, kp.public.n);
        assert_eq!(mod_exp(encrypted, kp.private.d, kp.public.n), msg);
    }
}

#[test]
fn rsa_forged_signature_fails() {
    let kp = RsaKeyPair::demo();
    let signer = RsaPssSigner::default();
    let sig = signer.sign(b"forge me", &kp);
    let forged = RsaSignature { value: (sig.value + 1) % kp.public.n };
    assert!(!signer.verify(b"forge me", &forged, &kp.public));
}
