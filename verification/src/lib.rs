//! A module-lattice key encapsulation mechanism: arithmetic modulo q, the
//! number-theoretic transform, polynomial vectors, sampling, packing, the
//! public-key encryption scheme, the proof that its decryption undoes encryption,
//! and the KEM built on it.
#![allow(non_snake_case)]
#![allow(non_upper_case_globals)]

pub mod params;
pub mod utils;
pub mod ntt;
pub mod poly;
pub mod packing;
pub mod sample;
pub mod kex;
pub mod correctness;
pub mod ccakem;
