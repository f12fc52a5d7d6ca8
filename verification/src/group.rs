//! Group elements of BN254, carried as canonical compressed encodings.
//!
//! The scheme never inspects a group element: it multiplies the fixed
//! generators by verified scalars, sums query points against scalar vectors,
//! and pairs the results.  Every operation is an `ark_ec` call behind a
//! trusted wrapper; the encodings the wrappers exchange are pinned to named
//! functions of the operands, so equal scalar inputs provably give equal
//! encodings.

use crate::errors::Error;
use crate::field::Fe;
use vstd::prelude::*;

verus! {

/// The compressed encoding of the G₁ generator multiplied by a scalar.
/// Named for what `ark_ec` computes; it depends on the scalar alone.
pub uninterp spec fn g1_mul_gen_of(s: nat) -> Seq<u8>;

/// The compressed encoding of the G₂ generator multiplied by a scalar.
pub uninterp spec fn g2_mul_gen_of(s: nat) -> Seq<u8>;

/// The compressed encoding of the multi-scalar multiplication
/// `Σᵢ scalarsᵢ·pointsᵢ` over G₁ points given by their encodings.
pub uninterp spec fn msm_g1_of(points: Seq<Seq<u8>>, scalars: Seq<nat>) -> Seq<u8>;

/// The compressed encoding of the pairing `e(a, b)` of encoded G₁ and G₂
/// points.
pub uninterp spec fn pairing_of(a: Seq<u8>, b: Seq<u8>) -> Seq<u8>;

/// The compressed encoding of the sum of two encoded target-group elements.
pub uninterp spec fn gt_add_of(a: Seq<u8>, b: Seq<u8>) -> Seq<u8>;

/// Whether `ark_serialize` accepts the bytes as a G₁ point.
pub uninterp spec fn g1_ok(bytes: Seq<u8>) -> bool;

/// Whether `ark_serialize` accepts the bytes as a G₂ point.
pub uninterp spec fn g2_ok(bytes: Seq<u8>) -> bool;

/// Whether `ark_serialize` accepts the bytes as a target-group element.
pub uninterp spec fn gt_ok(bytes: Seq<u8>) -> bool;

/// The compressed encoding of the G₂ generator itself.
pub open spec fn g2_gen_bytes() -> Seq<u8> {
    g2_mul_gen_of(1)
}

/// Relies on `ark_ec` scalar multiplication of the fixed G₁ generator and
/// canonical compressed serialisation: the result is a function of the
/// scalar, 32 bytes, and deserialises back.
#[verifier::external_body]
pub(crate) fn g1_mul_gen(s: &Fe) -> (r: Vec<u8>)
    requires
        s.wf(),
    ensures
        r@ == g1_mul_gen_of(s.val()),
        r@.len() == 32,
        g1_ok(r@),
{
    let sf = <ark_bn254::Fr as ark_ff::PrimeField>::from_le_bytes_mod_order(s.b.as_slice());
    let p = <ark_bn254::G1Projective as ark_ec::PrimeGroup>::generator() * sf;
    let a = ark_ec::CurveGroup::into_affine(p);
    let mut out = Vec::new();
    ark_serialize::CanonicalSerialize::serialize_compressed(&a, &mut out).unwrap();
    out
}

/// Relies on `ark_ec` scalar multiplication of the fixed G₂ generator and
/// canonical compressed serialisation: the result is a function of the
/// scalar, 64 bytes, and deserialises back.
#[verifier::external_body]
pub(crate) fn g2_mul_gen(s: &Fe) -> (r: Vec<u8>)
    requires
        s.wf(),
    ensures
        r@ == g2_mul_gen_of(s.val()),
        r@.len() == 64,
        g2_ok(r@),
{
    let sf = <ark_bn254::Fr as ark_ff::PrimeField>::from_le_bytes_mod_order(s.b.as_slice());
    let p = <ark_bn254::G2Projective as ark_ec::PrimeGroup>::generator() * sf;
    let a = ark_ec::CurveGroup::into_affine(p);
    let mut out = Vec::new();
    ark_serialize::CanonicalSerialize::serialize_compressed(&a, &mut out).unwrap();
    out
}

/// Relies on `ark_ec::VariableBaseMSM::msm` over G₁ and canonical
/// (de)serialisation: it succeeds exactly when every point encoding is
/// accepted, and its result is a function of the encodings and the scalars.
#[verifier::external_body]
pub(crate) fn g1_msm(points: &Vec<Vec<u8>>, scalars: &Vec<Fe>) -> (r: Result<Vec<u8>, Error>)
    requires
        points@.len() == scalars@.len(),
        forall|i: int| 0 <= i < scalars@.len() ==> (#[trigger] scalars@[i]).wf(),
    ensures
        r matches Ok(out) ==> {
            &&& forall|i: int| 0 <= i < points@.len() ==> g1_ok(#[trigger] points@[i]@)
            &&& out@ == msm_g1_of(
                Seq::new(points@.len(), |i: int| points@[i]@),
                Seq::new(scalars@.len(), |i: int| scalars@[i].val()),
            )
            &&& out@.len() == 32
            &&& g1_ok(out@)
        },
        r matches Err(e) ==> e == Error::SerializationError && !(forall|i: int|
            0 <= i < points@.len() ==> g1_ok(#[trigger] points@[i]@)),
{
    let decoded: Result<Vec<ark_bn254::G1Affine>, _> = points.iter().map(
        |p| ark_serialize::CanonicalDeserialize::deserialize_compressed(p.as_slice()),
    ).collect();
    let pts = match decoded {
        Ok(v) => v,
        Err(_) => return Err(Error::SerializationError),
    };
    let ss: Vec<ark_bn254::Fr> = scalars.iter().map(
        |s| <ark_bn254::Fr as ark_ff::PrimeField>::from_le_bytes_mod_order(s.b.as_slice()),
    ).collect();
    let acc = <ark_bn254::G1Projective as ark_ec::VariableBaseMSM>::msm(&pts, &ss).unwrap();
    let mut out = Vec::new();
    ark_serialize::CanonicalSerialize::serialize_compressed(&ark_ec::CurveGroup::into_affine(acc), &mut out).unwrap();
    Ok(out)
}

/// Relies on `ark_ec::pairing::Pairing::pairing` over BN254 and canonical
/// (de)serialisation: it succeeds exactly when both encodings are accepted,
/// and its result is a function of the two encodings (384 bytes of target
/// field element).
#[verifier::external_body]
pub(crate) fn pairing(a: &Vec<u8>, b: &Vec<u8>) -> (r: Result<Vec<u8>, Error>)
    ensures
        r matches Ok(out) ==> g1_ok(a@) && g2_ok(b@) && out@ == pairing_of(a@, b@) && out@.len()
            == 384 && gt_ok(out@),
        r matches Err(e) ==> e == Error::SerializationError && !(g1_ok(a@) && g2_ok(b@)),
{
    let pa: ark_bn254::G1Affine =
        match ark_serialize::CanonicalDeserialize::deserialize_compressed(a.as_slice()) {
        Ok(p) => p,
        Err(_) => return Err(Error::SerializationError),
    };
    let pb: ark_bn254::G2Affine =
        match ark_serialize::CanonicalDeserialize::deserialize_compressed(b.as_slice()) {
        Ok(p) => p,
        Err(_) => return Err(Error::SerializationError),
    };
    let s = <ark_bn254::Bn254 as ark_ec::pairing::Pairing>::pairing(pa, pb);
    let mut out = Vec::new();
    ark_serialize::CanonicalSerialize::serialize_compressed(&s, &mut out).unwrap();
    Ok(out)
}

/// Relies on addition of `ark_ec::pairing::PairingOutput` values and
/// canonical (de)serialisation: it succeeds exactly when both encodings are
/// accepted, and its result is a function of the two encodings.
#[verifier::external_body]
pub(crate) fn gt_add(a: &Vec<u8>, b: &Vec<u8>) -> (r: Result<Vec<u8>, Error>)
    ensures
        r matches Ok(out) ==> gt_ok(a@) && gt_ok(b@) && out@ == gt_add_of(a@, b@) && out@.len()
            == 384 && gt_ok(out@),
        r matches Err(e) ==> e == Error::SerializationError && !(gt_ok(a@) && gt_ok(b@)),
{
    let xa: ark_ec::pairing::PairingOutput<ark_bn254::Bn254> =
        match ark_serialize::CanonicalDeserialize::deserialize_compressed(a.as_slice()) {
        Ok(p) => p,
        Err(_) => return Err(Error::SerializationError),
    };
    let xb: ark_ec::pairing::PairingOutput<ark_bn254::Bn254> =
        match ark_serialize::CanonicalDeserialize::deserialize_compressed(b.as_slice()) {
        Ok(p) => p,
        Err(_) => return Err(Error::SerializationError),
    };
    let s = xa + xb;
    let mut out = Vec::new();
    ark_serialize::CanonicalSerialize::serialize_compressed(&s, &mut out).unwrap();
    Ok(out)
}

} // verus!
