use digital_signature_rs::keygen::mod_exp;
use digital_signature_rs::schnorr::{SchnorrKeyPair, SchnorrParams, SchnorrSignature, SchnorrSigner};

#[test]
fn schnorr_sign_verify_valid() {
    let params = SchnorrParams::demo();
    let kp = SchnorrKeyPair::generate(&params, 42);
    let signer = SchnorrSigner::new(&params);

    let sig = signer.sign(b"hello", &kp);
    assert!(signer.verify(b"hello", &sig, &kp.public));
}

#[test]
fn schnorr_tampered_message_fails() {
    let params = SchnorrParams::demo();
    let kp = SchnorrKeyPair::generate(&params, 42);
    let signer = SchnorrSigner::new(&params);

    let sig = signer.sign(b"original", &kp);
    assert!(!signer.verify(b"tampered", &sig, &kp.public));
}

#[test]
fn schnorr_wrong_key_fails() {
    let params = SchnorrParams::demo();
    let kp1 = SchnorrKeyPair::generate(&params, 1);
    let kp2 = SchnorrKeyPair::generate(&params, 2);
    let signer = SchnorrSigner::new(&params);

    let sig = signer.sign(b"msg", &kp1);
    assert!(!signer.verify(b"msg", &sig, &kp2.public));
}

#[test]
fn schnorr_different_keys_different_sigs() {
    let params = SchnorrParams::demo();
    let kp1 = SchnorrKeyPair::generate(&params, 1);
    let kp2 = SchnorrKeyPair::generate(&params, 2);
    let signer = SchnorrSigner::new(&params);

    let sig1 = signer.sign(b"same", &kp1);
    let sig2 = signer.sign(b"same", &kp2);
    assert_ne!(sig1, sig2);
}

#[test]
fn schnorr_keypair_generation() {
    let params = SchnorrParams::demo();
    let kp = SchnorrKeyPair::generate(&params, 42);
    assert!(kp.private.x > 0);
    assert!(kp.public.y > 0);
    assert!(kp.public.y < params.p);
}

#[test]
fn keypair_consistency() {
    let params = SchnorrParams::demo();
    let kp = SchnorrKeyPair::generate(&params, 7);
    let expected_y = mod_exp(params.g, kp.private.x, params.p);
    assert_eq!(kp.public.y, expected_y);
}

#[test]
fn medium_params_sign_verify() {
    let params = SchnorrParams::medium();
    let kp = SchnorrKeyPair::generate(&params, 12345);
    let signer = SchnorrSigner::new(&params);

    let sig = signer.sign(b"medium test", &kp);
    assert!(signer.verify(b"medium test", &sig, &kp.public));
}

#[test]
fn multiple_messages() {
    let params = SchnorrParams::demo();
    let kp = SchnorrKeyPair::generate(&params, 42);
    let signer = SchnorrSigner::new(&params);

    let msgs: &[&[u8]] = &[b"a", b"b", b"c", b"longer message here"];
    for msg in msgs {
        let sig = signer.sign(msg, &kp);
        assert!(signer.verify(msg, &sig, &kp.public));
    }
}

#[test]
fn same_message_same_sig() {
    let params = SchnorrParams::demo();
    let kp = SchnorrKeyPair::generate(&params, 42);
    let signer = SchnorrSigner::new(&params);

    let sig1 = signer.sign(b"deterministic", &kp);
    let sig2 = signer.sign(b"deterministic", &kp);
    assert_eq!(sig1, sig2);
}

#[test]
fn schnorr_params_values() {
    let d = SchnorrParams::demo();
    assert_eq!((d.p, d.g, d.q), (23, 5, 22));
    let m = SchnorrParams::medium();
    assert_eq!((m.p, m.g, m.q), (100003, 2, 100002));
}

#[test]
fn schnorr_generate_exact_values() {
    // x = 42 % 20 + 1 = 3, y = 5^3 mod 23 = 125 mod 23 = 10
    let kp = SchnorrKeyPair::generate(&SchnorrParams::demo(), 42);
    assert_eq!(kp.private.x, 3);
    assert_eq!(kp.public.y, 10);
}

#[test]
fn schnorr_all_seeds_verify() {
    let params = SchnorrParams::demo();
    let signer = SchnorrSigner::new(&params);
    for seed in 0..40u64 {
        let kp = SchnorrKeyPair::generate(&params, seed);
        let sig = signer.sign(b"round trip", &kp);
        assert!(sig.e < params.q && sig.s < params.q);
        assert!(signer.verify(b"round trip", &sig, &kp.public));
    }
}

#[test]
fn schnorr_modified_signature_fails() {
    let params = SchnorrParams::medium();
    let kp = SchnorrKeyPair::generate(&params, 777);
    let signer = SchnorrSigner::new(&params);
    let sig = signer.sign(b"x", &kp);
    let bad = SchnorrSignature { e: sig.e, s: (sig.s + 1) % params.q };
    assert!(!signer.verify(b"x", &bad, &kp.public));
}
