//! Scalar-field elements of BN254.
//!
//! A field element is carried as its canonical serialisation: 32 little-endian
//! bytes whose integer value lies in `[0, r)`, where `r` is the prime order of
//! the BN254 scalar field.  All arithmetic is done by `ark_bn254::Fr` behind
//! trusted wrappers whose contracts speak of the integer value of the bytes,
//! so every computation above this module is verified against plain modular
//! arithmetic over `nat`.

use vstd::prelude::*;

verus! {

/// The prime order `r` of the BN254 scalar field.
pub open spec fn fr_order() -> nat {
    21888242871839275222246405745257275088548364400416034343698204186575808495617nat
}

/// The integer value of a little-endian byte sequence.
pub open spec fn le_val(s: Seq<u8>) -> nat
    decreases s.len(),
{
    if s.len() == 0 {
        0
    } else {
        (s[0] as nat) + 256 * le_val(s.subrange(1, s.len() as int))
    }
}

/// A scalar-field element in canonical little-endian form.
pub struct Fe {
    pub b: Vec<u8>,
}

impl Fe {
    /// Canonical form: exactly 32 bytes, value below the field order.
    pub open spec fn wf(&self) -> bool {
        self.b@.len() == 32 && le_val(self.b@) < fr_order()
    }

    /// The integer value of the element.
    pub open spec fn val(&self) -> nat {
        le_val(self.b@)
    }

    /// A fresh element with the same bytes.
    pub fn dup(&self) -> (r: Fe)
        ensures
            r.b@ == self.b@,
    {
        Fe { b: crate::bytesutil::take_bytes(&self.b, 0, self.b.len()) }
    }
}

/// A sequence of all-zero bytes has integer value zero.
pub proof fn lemma_le_val_zero(s: Seq<u8>)
    requires
        forall|i: int| 0 <= i < s.len() ==> s[i] == 0u8,
    ensures
        le_val(s) == 0,
    decreases s.len(),
{
    if s.len() > 0 {
        lemma_le_val_zero(s.subrange(1, s.len() as int));
    }
}

/// Equal-length byte sequences with the same integer value are equal.
pub proof fn lemma_le_val_injective(s: Seq<u8>, t: Seq<u8>)
    requires
        s.len() == t.len(),
        le_val(s) == le_val(t),
    ensures
        s =~= t,
    decreases s.len(),
{
    if s.len() > 0 {
        let sr = s.subrange(1, s.len() as int);
        let tr = t.subrange(1, t.len() as int);
        assert(le_val(s) == (s[0] as nat) + 256 * le_val(sr));
        assert(le_val(t) == (t[0] as nat) + 256 * le_val(tr));
        assert(s[0] == t[0] && le_val(sr) == le_val(tr)) by {
            assert((s[0] as nat) < 256 && (t[0] as nat) < 256);
            vstd::arithmetic::div_mod::lemma_fundamental_div_mod_converse(
                le_val(s) as int,
                256,
                le_val(sr) as int,
                s[0] as int,
            );
            vstd::arithmetic::div_mod::lemma_fundamental_div_mod_converse(
                le_val(t) as int,
                256,
                le_val(tr) as int,
                t[0] as int,
            );
        }
        lemma_le_val_injective(sr, tr);
        assert(s =~= seq![s[0]] + sr);
        assert(t =~= seq![t[0]] + tr);
    } else {
        assert(s =~= t);
    }
}

/// The zero element.
pub fn fe_zero() -> (r: Fe)
    ensures
        r.wf(),
        r.val() == 0,
{
    let mut b: Vec<u8> = Vec::new();
    let mut i: usize = 0;
    while i < 32
        invariant
            i <= 32,
            b@.len() == i,
            forall|j: int| 0 <= j < i ==> b@[j] == 0u8,
        decreases 32 - i,
    {
        b.push(0u8);
        i = i + 1;
    }
    proof {
        lemma_le_val_zero(b@);
    }
    Fe { b }
}

/// The element one.
pub fn fe_one() -> (r: Fe)
    ensures
        r.wf(),
        r.val() == 1,
{
    let mut b: Vec<u8> = Vec::new();
    b.push(1u8);
    let mut i: usize = 1;
    while i < 32
        invariant
            1 <= i <= 32,
            b@.len() == i,
            b@[0] == 1u8,
            forall|j: int| 1 <= j < i ==> b@[j] == 0u8,
        decreases 32 - i,
    {
        b.push(0u8);
        i = i + 1;
    }
    proof {
        lemma_le_val_zero(b@.subrange(1, 32));
        assert(le_val(b@) == 1);
    }
    Fe { b }
}

/// Whether two elements hold the same value; canonical form makes this a
/// byte comparison.
pub fn fe_eq(a: &Fe, b: &Fe) -> (r: bool)
    requires
        a.wf(),
        b.wf(),
    ensures
        r == (a.val() == b.val()),
{
    let mut i: usize = 0;
    let mut eq = true;
    while i < 32
        invariant
            a.wf(),
            b.wf(),
            i <= 32,
            eq == (a.b@.subrange(0, i as int) =~= b.b@.subrange(0, i as int)),
        decreases 32 - i,
    {
        if a.b[i] != b.b[i] {
            proof {
                assert(a.b@.subrange(0, i as int + 1)[i as int] != b.b@.subrange(
                    0,
                    i as int + 1,
                )[i as int]);
            }
            eq = false;
        } else {
            proof {
                if eq {
                    assert(a.b@.subrange(0, i as int + 1) =~= b.b@.subrange(0, i as int + 1));
                } else {
                    let w = choose|w: int|
                        0 <= w < i && a.b@.subrange(0, i as int)[w] != b.b@.subrange(
                            0,
                            i as int,
                        )[w];
                    assert(a.b@.subrange(0, i as int + 1)[w] != b.b@.subrange(0, i as int + 1)[w]);
                }
            }
        }
        i = i + 1;
    }
    proof {
        assert(a.b@.subrange(0, 32) =~= a.b@);
        assert(b.b@.subrange(0, 32) =~= b.b@);
        if a.val() == b.val() {
            lemma_le_val_injective(a.b@, b.b@);
        }
    }
    eq
}

/// Whether the element is zero.
pub fn fe_is_zero(a: &Fe) -> (r: bool)
    requires
        a.wf(),
    ensures
        r == (a.val() == 0),
{
    let z = fe_zero();
    fe_eq(a, &z)
}

/// Relies on `ark_bn254::Fr` via `ark_ff::PrimeField::from_le_bytes_mod_order`
/// (interprets the bytes as a little-endian integer and reduces it modulo the
/// field order) and `ark_serialize::CanonicalSerialize::serialize_compressed`
/// (writes the canonical value back as 32 little-endian bytes).
#[verifier::external_body]
pub fn fe_reduce(bytes: &Vec<u8>) -> (r: Fe)
    ensures
        r.wf(),
        r.val() == le_val(bytes@) % fr_order(),
{
    let x = <ark_bn254::Fr as ark_ff::PrimeField>::from_le_bytes_mod_order(bytes.as_slice());
    let mut out = Vec::new();
    ark_serialize::CanonicalSerialize::serialize_compressed(&x, &mut out).unwrap();
    Fe { b: out }
}

/// Relies on `ark_bn254::Fr::from::<u64>` embedding the machine word, whose
/// value is always below the field order, and on canonical serialisation.
#[verifier::external_body]
pub fn fe_from_u64(x: u64) -> (r: Fe)
    ensures
        r.wf(),
        r.val() == x as nat,
{
    let z = ark_bn254::Fr::from(x);
    let mut out = Vec::new();
    ark_serialize::CanonicalSerialize::serialize_compressed(&z, &mut out).unwrap();
    Fe { b: out }
}

/// Relies on `ark_bn254::Fr` addition being addition modulo the field order,
/// with canonical (de)serialisation on either side of the call.
#[verifier::external_body]
pub fn fe_add(a: &Fe, b: &Fe) -> (r: Fe)
    requires
        a.wf(),
        b.wf(),
    ensures
        r.wf(),
        r.val() == (a.val() + b.val()) % fr_order(),
{
    let x = <ark_bn254::Fr as ark_ff::PrimeField>::from_le_bytes_mod_order(a.b.as_slice());
    let y = <ark_bn254::Fr as ark_ff::PrimeField>::from_le_bytes_mod_order(b.b.as_slice());
    let z = x + y;
    let mut out = Vec::new();
    ark_serialize::CanonicalSerialize::serialize_compressed(&z, &mut out).unwrap();
    Fe { b: out }
}

/// Relies on `ark_bn254::Fr` subtraction being subtraction modulo the field
/// order, with canonical (de)serialisation on either side of the call.
#[verifier::external_body]
pub fn fe_sub(a: &Fe, b: &Fe) -> (r: Fe)
    requires
        a.wf(),
        b.wf(),
    ensures
        r.wf(),
        r.val() == ((a.val() + fr_order() - b.val()) as int % fr_order() as int) as nat,
{
    let x = <ark_bn254::Fr as ark_ff::PrimeField>::from_le_bytes_mod_order(a.b.as_slice());
    let y = <ark_bn254::Fr as ark_ff::PrimeField>::from_le_bytes_mod_order(b.b.as_slice());
    let z = x - y;
    let mut out = Vec::new();
    ark_serialize::CanonicalSerialize::serialize_compressed(&z, &mut out).unwrap();
    Fe { b: out }
}

/// Relies on `ark_bn254::Fr` multiplication being multiplication modulo the
/// field order, with canonical (de)serialisation on either side of the call.
#[verifier::external_body]
pub fn fe_mul(a: &Fe, b: &Fe) -> (r: Fe)
    requires
        a.wf(),
        b.wf(),
    ensures
        r.wf(),
        r.val() == (a.val() * b.val()) % fr_order(),
{
    let x = <ark_bn254::Fr as ark_ff::PrimeField>::from_le_bytes_mod_order(a.b.as_slice());
    let y = <ark_bn254::Fr as ark_ff::PrimeField>::from_le_bytes_mod_order(b.b.as_slice());
    let z = x * y;
    let mut out = Vec::new();
    ark_serialize::CanonicalSerialize::serialize_compressed(&z, &mut out).unwrap();
    Fe { b: out }
}

/// Relies on `ark_ff::Field::inverse`: `None` exactly on zero, otherwise the
/// multiplicative inverse modulo the field order.
#[verifier::external_body]
pub fn fe_inv(a: &Fe) -> (r: Option<Fe>)
    requires
        a.wf(),
    ensures
        r is None <==> a.val() == 0,
        r matches Some(x) ==> x.wf() && (a.val() * x.val()) % fr_order() == 1,
{
    let x = <ark_bn254::Fr as ark_ff::PrimeField>::from_le_bytes_mod_order(a.b.as_slice());
    match ark_ff::Field::inverse(&x) {
        None => None,
        Some(z) => {
            let mut out = Vec::new();
            ark_serialize::CanonicalSerialize::serialize_compressed(&z, &mut out).unwrap();
            Some(Fe { b: out })
        },
    }
}

} // verus!
