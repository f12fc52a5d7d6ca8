//! Randomness for the scheme.
//!
//! The core consumes a caller-owned generator and never constructs one from
//! hidden state: a generator is built either from an explicit 32-byte seed
//! (reproducible) or from the operating system entropy source.  Drawing
//! returns a canonical scalar; nothing is promised about its value.

use crate::field::Fe;
use vstd::prelude::*;

verus! {

#[verifier::external_type_specification]
#[verifier::external_body]
pub struct ExStdRng(rand::rngs::StdRng);

/// A scalar-field random generator owned by the caller.
pub struct FrRng {
    pub inner: rand::rngs::StdRng,
}

impl FrRng {
    /// Relies on `rand::SeedableRng::from_seed` for `StdRng`: a generator
    /// built deterministically from the 32 seed bytes.
    #[verifier::external_body]
    pub fn from_seed_bytes(seed: &Vec<u8>) -> (r: FrRng)
        requires
            seed@.len() == 32,
    {
        let mut s = [0u8; 32];
        s.copy_from_slice(seed.as_slice());
        FrRng { inner: <rand::rngs::StdRng as rand::SeedableRng>::from_seed(s) }
    }

    /// Relies on `rand::SeedableRng::from_entropy` for `StdRng`: a generator
    /// seeded from the operating system entropy source.
    #[verifier::external_body]
    pub fn from_entropy_source() -> (r: FrRng)
    {
        FrRng { inner: <rand::rngs::StdRng as rand::SeedableRng>::from_entropy() }
    }

    /// Relies on `ark_ff::UniformRand` for the scalar field and canonical
    /// serialisation: a canonical scalar; nothing is known of its value.
    #[verifier::external_body]
    pub(crate) fn draw(&mut self) -> (r: Fe)
        ensures
            r.wf(),
    {
        let x: ark_bn254::Fr = ark_ff::UniformRand::rand(&mut self.inner);
        let mut out = Vec::new();
        ark_serialize::CanonicalSerialize::serialize_compressed(&x, &mut out).unwrap();
        Fe { b: out }
    }

    /// Draws until the scalar is non-zero; the sampled `δ` must be
    /// invertible.  After an implausible run of zero draws the constant one
    /// is used, which is likewise invertible.
    pub(crate) fn draw_nonzero(&mut self) -> (r: Fe)
        ensures
            r.wf(),
            r.val() != 0,
    {
        let mut tries: u32 = 0;
        while tries < 128
            invariant
                tries <= 128,
            decreases 128 - tries,
        {
            let x = self.draw();
            if !crate::field::fe_is_zero(&x) {
                return x;
            }
            tries = tries + 1;
        }
        crate::field::fe_one()
    }
}

} // verus!
