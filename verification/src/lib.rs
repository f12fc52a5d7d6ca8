//! A witness key encapsulation mechanism (WKEM) keyed by an arithmetic
//! circuit over the BN254 scalar field.
//!
//! A sender who knows only the public inputs of a circuit derives a 32-byte
//! symmetric key together with a ciphertext; any party who later finds a
//! satisfying witness for the circuit recovers the same key from the
//! ciphertext.  The crate also holds the binary codecs for the `r1cs` and
//! `wtns` container formats, the constraint-system builder, the QAP
//! evaluation engine, and the AEAD envelope around the encrypted payload.

pub mod bytesutil;
pub mod circuit;
pub mod cs;
pub mod errors;
pub mod field;
pub mod frame;
pub mod group;
pub mod inputs;
pub mod laws;
pub mod qap;
pub mod r1cs;
pub mod rng;
pub mod serializable;
pub mod sigma;
pub mod sym;
pub mod witness;
pub mod wkem;
