//! # digital-signature-rs
//!
//! Digital signature schemes over small integer groups, with machine-checked
//! contracts: ElGamal, Schnorr and a simplified RSA-PSS style scheme, together
//! with the hashing and modular arithmetic they are built from.
//!
//! These are educational implementations: the hash is FNV-1a and the moduli
//! fit in a `u64`.

pub mod number_theory;
pub mod keygen;
pub mod elgamal;
pub mod rsa_pss;
pub mod schnorr;
pub mod verify;
