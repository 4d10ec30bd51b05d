//! Verifiable decryption of homomorphic tallies.
//!
//! The crate proves that an ElGamal ciphertext was decrypted correctly
//! (a Chaum-Pedersen style non-interactive proof) and recovers the integer
//! tally from a decrypted group element with a baby-step giant-step search.
//! A verifiable random function built on the same group is included.
//!
//! Arithmetic in the group and in its scalar field is done by the
//! `eccoxide` crate on the curve secp256k1, hashing by `cryptoxide`.
//! Every call into them stands in a small function whose contract is
//! stated and not proved; everything else is verified.

pub mod bytes;
pub mod modular;
pub mod scalar;
pub mod hash;
pub mod group;
pub mod elgamal;
pub mod decr_nizk;
pub mod table;
pub mod babystep;
pub mod dleq;
pub mod vrf;
