//! Parameters of the scheme (the 768-bit security level: module rank 3).
#![allow(non_upper_case_globals)]

use vstd::prelude::*;

verus! {

/// Module rank.
pub const K: usize = 3;
/// Noise parameter of the secret and of the first error vector.
pub const ETA1: usize = 2;
/// Noise parameter of the encryption errors.
pub const ETA2: usize = 2;
/// Bits kept of each coefficient of `u` in a ciphertext.
pub const Du: usize = 10;
/// Bits kept of each coefficient of `v` in a ciphertext.
pub const Dv: usize = 4;

/// The prime modulus.
pub const Q: usize = 3329;
/// Number of coefficients of a polynomial.
pub const N: usize = 256;

pub const MESSAGEBYTES: usize = 32;
pub const CIPHERTEXTBYTES: usize = Du * K * N / 8 + Dv * N / 8;

pub const SYMBYTES: usize = 32;
pub const SEEDBYTES: usize = 32;
pub const PACKED_KEYS: usize = 12;

/// Length of a shared key.
pub const SHAREDKEY: usize = 32;

/// Length of a public key: the packed vector `t` and the seed `rho`.
pub const PK_BYTES: usize = PACKED_KEYS * K * N / 8 + SEEDBYTES;
/// Length of a secret key: the packed vector `s`.
pub const SK_BYTES: usize = PACKED_KEYS * K * N / 8;

/// Length of a KEM secret key: secret key, public key, hash of the public key, and `z`.
pub const KEMSK_BYTES: usize = PK_BYTES + SK_BYTES + SEEDBYTES + SYMBYTES;
pub const KEMPK_BYTES: usize = PK_BYTES;

} // verus!
