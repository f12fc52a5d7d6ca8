//! The ciphertext wire format.
//!
//! The σ record is serialised as its group-element encodings in field
//! order — `α` (32 bytes), `β` (64), `δ` (64), then the four query vectors,
//! each prefixed by its 4-byte little-endian count, then the public-input
//! vector, likewise prefixed; every query element and every public input is
//! a fixed-width encoding (32 bytes in G₁ and for scalars, 64 in G₂).

use crate::bytesutil::{push_bytes, push_u32_le, read_u32_le, take_bytes};
use crate::errors::Error;
use crate::field::{fe_reduce, le_val, fr_order, Fe};
use crate::witness::cells_bytes;
use crate::wkem::{Ciphertext, EncapKey};
use vstd::bytes::{spec_u32_from_le_bytes, spec_u32_to_le_bytes};
use vstd::prelude::*;

verus! {

/// The views of a list of encodings.
pub open spec fn enc_views(v: Seq<Vec<u8>>) -> Seq<Seq<u8>> {
    Seq::new(v.len(), |i: int| v[i]@)
}

/// The views of a list of scalars.
pub open spec fn fe_views(v: Seq<Fe>) -> Seq<Seq<u8>> {
    Seq::new(v.len(), |i: int| v[i].b@)
}

/// Structural well-formedness of a ciphertext: every encoding has the
/// width of its group, every public input is canonical, and the counts fit
/// their 4-byte words.
pub open spec fn sigma_wf(ct: &Ciphertext) -> bool {
    &&& ct.encap_key.alpha_g1@.len() == 32
    &&& ct.encap_key.beta_g2@.len() == 64
    &&& ct.encap_key.delta_g2@.len() == 64
    &&& ct.encap_key.r_u_query_g1@.len() <= 0xffffffffnat
    &&& (forall|i: int|
        0 <= i < ct.encap_key.r_u_query_g1@.len() ==> (
        #[trigger] ct.encap_key.r_u_query_g1@[i])@.len() == 32)
    &&& ct.encap_key.r_v_query_g2@.len() <= 0xffffffffnat
    &&& (forall|i: int|
        0 <= i < ct.encap_key.r_v_query_g2@.len() ==> (
        #[trigger] ct.encap_key.r_v_query_g2@[i])@.len() == 64)
    &&& ct.encap_key.phi_delta_query_g1@.len() <= 0xffffffffnat
    &&& (forall|i: int|
        0 <= i < ct.encap_key.phi_delta_query_g1@.len() ==> (
        #[trigger] ct.encap_key.phi_delta_query_g1@[i])@.len() == 32)
    &&& ct.encap_key.h_query_g1@.len() <= 0xffffffffnat
    &&& (forall|i: int|
        0 <= i < ct.encap_key.h_query_g1@.len() ==> (
        #[trigger] ct.encap_key.h_query_g1@[i])@.len() == 32)
    &&& ct.public_inputs@.len() <= 0xffffffffnat
    &&& (forall|i: int|
        0 <= i < ct.public_inputs@.len() ==> (#[trigger] ct.public_inputs@[i]).wf())
}

/// The serialisation of a ciphertext's parts: the three fixed encodings,
/// then each vector with its 4-byte count.
pub open spec fn sigma_parts_bytes(
    a: Seq<u8>,
    b: Seq<u8>,
    d: Seq<u8>,
    ru: Seq<Seq<u8>>,
    rv: Seq<Seq<u8>>,
    phi: Seq<Seq<u8>>,
    h: Seq<Seq<u8>>,
    pubs: Seq<Seq<u8>>,
) -> Seq<u8> {
    a + b + d + spec_u32_to_le_bytes(ru.len() as u32) + cells_bytes(ru)
        + spec_u32_to_le_bytes(rv.len() as u32) + cells_bytes(rv) + spec_u32_to_le_bytes(
        phi.len() as u32,
    ) + cells_bytes(phi) + spec_u32_to_le_bytes(h.len() as u32) + cells_bytes(h)
        + spec_u32_to_le_bytes(pubs.len() as u32) + cells_bytes(pubs)
}

/// Well-formedness of serialised parts: fixed widths per group, canonical
/// public inputs, counts that fit their words.
pub open spec fn sigma_parts_wf(
    a: Seq<u8>,
    b: Seq<u8>,
    d: Seq<u8>,
    ru: Seq<Seq<u8>>,
    rv: Seq<Seq<u8>>,
    phi: Seq<Seq<u8>>,
    h: Seq<Seq<u8>>,
    pubs: Seq<Seq<u8>>,
) -> bool {
    &&& a.len() == 32
    &&& b.len() == 64
    &&& d.len() == 64
    &&& ru.len() <= 0xffffffffnat
    &&& (forall|i: int| 0 <= i < ru.len() ==> (#[trigger] ru[i]).len() == 32)
    &&& rv.len() <= 0xffffffffnat
    &&& (forall|i: int| 0 <= i < rv.len() ==> (#[trigger] rv[i]).len() == 64)
    &&& phi.len() <= 0xffffffffnat
    &&& (forall|i: int| 0 <= i < phi.len() ==> (#[trigger] phi[i]).len() == 32)
    &&& h.len() <= 0xffffffffnat
    &&& (forall|i: int| 0 <= i < h.len() ==> (#[trigger] h[i]).len() == 32)
    &&& pubs.len() <= 0xffffffffnat
    &&& (forall|i: int|
        0 <= i < pubs.len() ==> (#[trigger] pubs[i]).len() == 32 && le_val(pubs[i])
            < fr_order())
}

/// The canonical serialisation of a ciphertext.
pub open spec fn sigma_bytes(ct: &Ciphertext) -> Seq<u8> {
    sigma_parts_bytes(
        ct.encap_key.alpha_g1@,
        ct.encap_key.beta_g2@,
        ct.encap_key.delta_g2@,
        enc_views(ct.encap_key.r_u_query_g1@),
        enc_views(ct.encap_key.r_v_query_g2@),
        enc_views(ct.encap_key.phi_delta_query_g1@),
        enc_views(ct.encap_key.h_query_g1@),
        fe_views(ct.public_inputs@),
    )
}

/// Where every chunk of a serialised ciphertext stands.
#[verifier::rlimit(100)]
#[verifier::spinoff_prover]
proof fn lemma_sigma_layout(
    a: Seq<u8>,
    b: Seq<u8>,
    d: Seq<u8>,
    ru: Seq<Seq<u8>>,
    rv: Seq<Seq<u8>>,
    phi: Seq<Seq<u8>>,
    h: Seq<Seq<u8>>,
    pubs: Seq<Seq<u8>>,
)
    requires
        sigma_parts_wf(a, b, d, ru, rv, phi, h, pubs),
    ensures
        ({
            let dd = sigma_parts_bytes(a, b, d, ru, rv, phi, h, pubs);
            let o1 = 164 + 32 * ru.len();
            let o2 = o1 + 4 + 64 * rv.len();
            let o3 = o2 + 4 + 32 * phi.len();
            let o4 = o3 + 4 + 32 * h.len();
            &&& dd.len() == o4 + 4 + 32 * pubs.len()
            &&& dd.subrange(0, 32) == a
            &&& dd.subrange(32, 96) == b
            &&& dd.subrange(96, 160) == d
            &&& dd.subrange(160, 164) == spec_u32_to_le_bytes(ru.len() as u32)
            &&& dd.subrange(164, o1 as int) == cells_bytes(ru)
            &&& dd.subrange(o1 as int, o1 as int + 4) == spec_u32_to_le_bytes(rv.len() as u32)
            &&& dd.subrange(o1 as int + 4, o2 as int) == cells_bytes(rv)
            &&& dd.subrange(o2 as int, o2 as int + 4) == spec_u32_to_le_bytes(phi.len() as u32)
            &&& dd.subrange(o2 as int + 4, o3 as int) == cells_bytes(phi)
            &&& dd.subrange(o3 as int, o3 as int + 4) == spec_u32_to_le_bytes(h.len() as u32)
            &&& dd.subrange(o3 as int + 4, o4 as int) == cells_bytes(h)
            &&& dd.subrange(o4 as int, o4 as int + 4) == spec_u32_to_le_bytes(pubs.len() as u32)
            &&& dd.subrange(o4 as int + 4, dd.len() as int) == cells_bytes(pubs)
        }),
{
    vstd::bytes::lemma_auto_spec_u32_to_from_le_bytes();
    crate::witness::lemma_cells_bytes_len(ru, 32);
    crate::witness::lemma_cells_bytes_len(rv, 64);
    crate::witness::lemma_cells_bytes_len(phi, 32);
    crate::witness::lemma_cells_bytes_len(h, 32);
    crate::witness::lemma_cells_bytes_len(pubs, 32);
    let dd = sigma_parts_bytes(a, b, d, ru, rv, phi, h, pubs);
    let c_ru = spec_u32_to_le_bytes(ru.len() as u32);
    let c_rv = spec_u32_to_le_bytes(rv.len() as u32);
    let c_phi = spec_u32_to_le_bytes(phi.len() as u32);
    let c_h = spec_u32_to_le_bytes(h.len() as u32);
    let c_p = spec_u32_to_le_bytes(pubs.len() as u32);
    let k_ru = cells_bytes(ru);
    let k_rv = cells_bytes(rv);
    let k_phi = cells_bytes(phi);
    let k_h = cells_bytes(h);
    let k_p = cells_bytes(pubs);
    assert(dd.subrange(0, dd.len() as int) =~= dd);
    assert(dd =~= Seq::empty() + a + (b + d + c_ru + k_ru + c_rv + k_rv + c_phi + k_phi + c_h
        + k_h + c_p + k_p));
    crate::bytesutil::lemma_subrange_at(dd, 0, Seq::empty(), a,
        b + d + c_ru + k_ru + c_rv + k_rv + c_phi + k_phi + c_h + k_h + c_p + k_p);
    assert(dd =~= a + b + (d + c_ru + k_ru + c_rv + k_rv + c_phi + k_phi + c_h + k_h + c_p
        + k_p));
    crate::bytesutil::lemma_subrange_at(dd, 0, a, b,
        d + c_ru + k_ru + c_rv + k_rv + c_phi + k_phi + c_h + k_h + c_p + k_p);
    assert(dd =~= (a + b) + d + (c_ru + k_ru + c_rv + k_rv + c_phi + k_phi + c_h + k_h + c_p
        + k_p));
    crate::bytesutil::lemma_subrange_at(dd, 0, a + b, d,
        c_ru + k_ru + c_rv + k_rv + c_phi + k_phi + c_h + k_h + c_p + k_p);
    assert(dd =~= (a + b + d) + c_ru + (k_ru + c_rv + k_rv + c_phi + k_phi + c_h + k_h + c_p
        + k_p));
    crate::bytesutil::lemma_subrange_at(dd, 0, a + b + d, c_ru,
        k_ru + c_rv + k_rv + c_phi + k_phi + c_h + k_h + c_p + k_p);
    assert(dd =~= (a + b + d + c_ru) + k_ru + (c_rv + k_rv + c_phi + k_phi + c_h + k_h + c_p
        + k_p));
    crate::bytesutil::lemma_subrange_at(dd, 0, a + b + d + c_ru, k_ru,
        c_rv + k_rv + c_phi + k_phi + c_h + k_h + c_p + k_p);
    assert(dd =~= (a + b + d + c_ru + k_ru) + c_rv + (k_rv + c_phi + k_phi + c_h + k_h + c_p
        + k_p));
    crate::bytesutil::lemma_subrange_at(dd, 0, a + b + d + c_ru + k_ru, c_rv,
        k_rv + c_phi + k_phi + c_h + k_h + c_p + k_p);
    assert(dd =~= (a + b + d + c_ru + k_ru + c_rv) + k_rv + (c_phi + k_phi + c_h + k_h + c_p
        + k_p));
    crate::bytesutil::lemma_subrange_at(dd, 0, a + b + d + c_ru + k_ru + c_rv, k_rv,
        c_phi + k_phi + c_h + k_h + c_p + k_p);
    assert(dd =~= (a + b + d + c_ru + k_ru + c_rv + k_rv) + c_phi + (k_phi + c_h + k_h + c_p
        + k_p));
    crate::bytesutil::lemma_subrange_at(dd, 0, a + b + d + c_ru + k_ru + c_rv + k_rv, c_phi,
        k_phi + c_h + k_h + c_p + k_p);
    assert(dd =~= (a + b + d + c_ru + k_ru + c_rv + k_rv + c_phi) + k_phi + (c_h + k_h + c_p
        + k_p));
    crate::bytesutil::lemma_subrange_at(dd, 0, a + b + d + c_ru + k_ru + c_rv + k_rv + c_phi,
        k_phi, c_h + k_h + c_p + k_p);
    assert(dd =~= (a + b + d + c_ru + k_ru + c_rv + k_rv + c_phi + k_phi) + c_h + (k_h + c_p
        + k_p));
    crate::bytesutil::lemma_subrange_at(dd, 0,
        a + b + d + c_ru + k_ru + c_rv + k_rv + c_phi + k_phi, c_h, k_h + c_p + k_p);
    assert(dd =~= (a + b + d + c_ru + k_ru + c_rv + k_rv + c_phi + k_phi + c_h) + k_h + (c_p
        + k_p));
    crate::bytesutil::lemma_subrange_at(dd, 0,
        a + b + d + c_ru + k_ru + c_rv + k_rv + c_phi + k_phi + c_h, k_h, c_p + k_p);
    assert(dd =~= (a + b + d + c_ru + k_ru + c_rv + k_rv + c_phi + k_phi + c_h + k_h) + c_p
        + k_p);
    crate::bytesutil::lemma_subrange_at(dd, 0,
        a + b + d + c_ru + k_ru + c_rv + k_rv + c_phi + k_phi + c_h + k_h, c_p, k_p);
    assert(dd =~= (a + b + d + c_ru + k_ru + c_rv + k_rv + c_phi + k_phi + c_h + k_h + c_p)
        + k_p + Seq::empty());
    crate::bytesutil::lemma_subrange_at(dd, 0,
        a + b + d + c_ru + k_ru + c_rv + k_rv + c_phi + k_phi + c_h + k_h + c_p, k_p,
        Seq::empty());
}

/// Appends a vector of fixed-width encodings: the count word, then the
/// encodings in order.
fn emit_enc_vec(out: &mut Vec<u8>, v: &Vec<Vec<u8>>)
    requires
        v@.len() <= 0xffffffffnat,
    ensures
        final(out)@ == old(out)@ + spec_u32_to_le_bytes(v@.len() as u32) + cells_bytes(
            enc_views(v@),
        ),
{
    push_u32_le(out, v.len() as u32);
    let n = v.len();
    let mut i: usize = 0;
    while i < n
        invariant
            n == v@.len(),
            i <= n,
            out@ == old(out)@ + spec_u32_to_le_bytes(v@.len() as u32) + cells_bytes(
                enc_views(v@).subrange(0, i as int),
            ),
        decreases n - i,
    {
        let ghost pre = enc_views(v@).subrange(0, i as int);
        push_bytes(out, &v[i]);
        proof {
            let cur = enc_views(v@).subrange(0, i as int + 1);
            assert(cur.drop_last() =~= pre);
            assert(cur.last() == v@[i as int]@);
            assert(out@ =~= old(out)@ + spec_u32_to_le_bytes(v@.len() as u32) + cells_bytes(
                cur,
            ));
        }
        i = i + 1;
    }
    proof {
        assert(enc_views(v@).subrange(0, n as int) =~= enc_views(v@));
    }
}

/// Serialises a ciphertext into its wire format.
pub fn serialize_ciphertext(ct: &Ciphertext) -> (r: Vec<u8>)
    requires
        sigma_wf(ct),
    ensures
        r@ == sigma_bytes(ct),
{
    let mut out: Vec<u8> = Vec::new();
    push_bytes(&mut out, &ct.encap_key.alpha_g1);
    push_bytes(&mut out, &ct.encap_key.beta_g2);
    push_bytes(&mut out, &ct.encap_key.delta_g2);
    emit_enc_vec(&mut out, &ct.encap_key.r_u_query_g1);
    emit_enc_vec(&mut out, &ct.encap_key.r_v_query_g2);
    emit_enc_vec(&mut out, &ct.encap_key.phi_delta_query_g1);
    emit_enc_vec(&mut out, &ct.encap_key.h_query_g1);
    push_u32_le(&mut out, ct.public_inputs.len() as u32);
    let n = ct.public_inputs.len();
    let mut i: usize = 0;
    let ghost base = out@;
    while i < n
        invariant
            n == ct.public_inputs@.len(),
            i <= n,
            out@ == base + cells_bytes(fe_views(ct.public_inputs@).subrange(0, i as int)),
        decreases n - i,
    {
        let ghost pre = fe_views(ct.public_inputs@).subrange(0, i as int);
        push_bytes(&mut out, &ct.public_inputs[i].b);
        proof {
            let cur = fe_views(ct.public_inputs@).subrange(0, i as int + 1);
            assert(cur.drop_last() =~= pre);
            assert(cur.last() == ct.public_inputs@[i as int].b@);
            assert(out@ =~= base + cells_bytes(cur));
        }
        i = i + 1;
    }
    proof {
        assert(fe_views(ct.public_inputs@).subrange(0, n as int) =~= fe_views(
            ct.public_inputs@,
        ));
        assert(out@ =~= sigma_bytes(ct));
    }
    out
}

/// Reads a count-prefixed vector of fixed-width encodings; every cell is
/// pinned to the bytes it was read from.
fn read_enc_vec(data: &Vec<u8>, pos: usize, width: usize) -> (r: Result<
    (Vec<Vec<u8>>, usize),
    Error,
>)
    requires
        pos <= data@.len(),
        1 <= width <= 64,
    ensures
        r matches Ok(p) ==> {
            &&& pos + 4 <= data@.len()
            &&& p.0@.len() == spec_u32_from_le_bytes(
                data@.subrange(pos as int, pos as int + 4),
            ) as nat
            &&& p.1 as int == pos + 4 + p.0@.len() * width
            &&& p.1 <= data@.len()
            &&& forall|i: int|
                0 <= i < p.0@.len() ==> (#[trigger] p.0@[i])@ == data@.subrange(
                    pos + 4 + i * width,
                    pos + 4 + i * width + width,
                ) && p.0@[i]@.len() == width as nat
        },
        r matches Err(e) ==> {
            &&& e == Error::TruncatedSection
            &&& (pos + 4 > data@.len() || pos + 4 + (spec_u32_from_le_bytes(
                data@.subrange(pos as int, pos as int + 4),
            ) as nat) * width > data@.len())
        },
{
    let n = data.len();
    if n - pos < 4 {
        return Err(Error::TruncatedSection);
    }
    let count = read_u32_le(data, pos);
    let mut out: Vec<Vec<u8>> = Vec::new();
    let mut cur: usize = pos + 4;
    let mut i: u32 = 0;
    while i < count
        invariant
            pos + 4 <= n,
            n == data@.len(),
            1 <= width <= 64,
            i <= count,
            out@.len() == i as nat,
            cur as int == pos + 4 + (i as nat) * width,
            cur <= n,
            count == spec_u32_from_le_bytes(data@.subrange(pos as int, pos as int + 4)),
            forall|j: int|
                0 <= j < i as int ==> (#[trigger] out@[j])@ == data@.subrange(
                    pos + 4 + j * width,
                    pos + 4 + j * width + width,
                ) && out@[j]@.len() == width as nat,
        decreases count - i,
    {
        proof {
            assert((i as int + 1) * width == (i as nat) * width + width) by (nonlinear_arith);
            assert((count as nat) * width >= (i as nat) * width + width) by (nonlinear_arith)
                requires
                    i < count,
                    width >= 1,
            ;
        }
        if n - cur < width {
            return Err(Error::TruncatedSection);
        }
        let cell = take_bytes(data, cur, width);
        out.push(cell);
        cur = cur + width;
        i = i + 1;
    }
    Ok((out, cur))
}


/// The hypothesis that `data` is the serialisation of the given
/// well-formed parts.
pub open spec fn is_sigma_emission(
    data: Seq<u8>,
    a: Seq<u8>,
    b: Seq<u8>,
    d: Seq<u8>,
    ru: Seq<Seq<u8>>,
    rv: Seq<Seq<u8>>,
    phi: Seq<Seq<u8>>,
    h: Seq<Seq<u8>>,
    pubs: Seq<Seq<u8>>,
) -> bool {
    sigma_parts_wf(a, b, d, ru, rv, phi, h, pubs) && data == sigma_parts_bytes(
        a,
        b,
        d,
        ru,
        rv,
        phi,
        h,
        pubs,
    )
}

/// Parses a ciphertext from its wire format; a successful parse is
/// structurally well formed, public inputs are reduced into the field, and
/// parsing the serialisation of any well-formed parts returns exactly
/// those parts.  Trailing bytes are refused.
#[verifier::rlimit(100)]
#[verifier::spinoff_prover]
pub fn parse_ciphertext(data: &Vec<u8>) -> (r: Result<Ciphertext, Error>)
    ensures
        r matches Ok(ct) ==> sigma_wf(&ct),
        forall|
            a: Seq<u8>,
            b: Seq<u8>,
            d: Seq<u8>,
            ru: Seq<Seq<u8>>,
            rv: Seq<Seq<u8>>,
            phi: Seq<Seq<u8>>,
            h: Seq<Seq<u8>>,
            pubs: Seq<Seq<u8>>,
        |
            #[trigger] is_sigma_emission(data@, a, b, d, ru, rv, phi, h, pubs) ==> (r matches
                Ok(ct) && ct.encap_key.alpha_g1@ == a && ct.encap_key.beta_g2@ == b
                && ct.encap_key.delta_g2@ == d && enc_views(ct.encap_key.r_u_query_g1@) =~= ru
                && enc_views(ct.encap_key.r_v_query_g2@) =~= rv && enc_views(
                ct.encap_key.phi_delta_query_g1@,
            ) =~= phi && enc_views(ct.encap_key.h_query_g1@) =~= h && fe_views(
                ct.public_inputs@,
            ) =~= pubs),
        r matches Err(e) ==> e == Error::TruncatedSection,
{
    let n = data.len();
    if n < 160 {
        proof {
            vstd::bytes::lemma_auto_spec_u32_to_from_le_bytes();
            assert forall|
                a: Seq<u8>,
                b: Seq<u8>,
                d: Seq<u8>,
                ru: Seq<Seq<u8>>,
                rv: Seq<Seq<u8>>,
                phi: Seq<Seq<u8>>,
                h: Seq<Seq<u8>>,
                pubs: Seq<Seq<u8>>,
            |
                #[trigger] is_sigma_emission(data@, a, b, d, ru, rv, phi, h, pubs)
                implies false by {
                lemma_sigma_layout(a, b, d, ru, rv, phi, h, pubs);
            }
        }
        return Err(Error::TruncatedSection);
    }
    let alpha_g1 = take_bytes(data, 0, 32);
    let beta_g2 = take_bytes(data, 32, 64);
    let delta_g2 = take_bytes(data, 96, 64);
    let (r_u_query_g1, p1) = match read_enc_vec(data, 160, 32) {
        Ok(v) => v,
        Err(e) => {
            proof {
                vstd::bytes::lemma_auto_spec_u32_to_from_le_bytes();
                assert forall|
                    a: Seq<u8>,
                    b: Seq<u8>,
                    d: Seq<u8>,
                    ru: Seq<Seq<u8>>,
                    rv: Seq<Seq<u8>>,
                    phi: Seq<Seq<u8>>,
                    h: Seq<Seq<u8>>,
                    pubs: Seq<Seq<u8>>,
                |
                    #[trigger] is_sigma_emission(data@, a, b, d, ru, rv, phi, h, pubs)
                    implies false by {
                    lemma_sigma_layout(a, b, d, ru, rv, phi, h, pubs);
                }
            }
            return Err(e);
        },
    };
    let (r_v_query_g2, p2) = match read_enc_vec(data, p1, 64) {
        Ok(v) => v,
        Err(e) => {
            proof {
                vstd::bytes::lemma_auto_spec_u32_to_from_le_bytes();
                assert forall|
                    a: Seq<u8>,
                    b: Seq<u8>,
                    d: Seq<u8>,
                    ru: Seq<Seq<u8>>,
                    rv: Seq<Seq<u8>>,
                    phi: Seq<Seq<u8>>,
                    h: Seq<Seq<u8>>,
                    pubs: Seq<Seq<u8>>,
                |
                    #[trigger] is_sigma_emission(data@, a, b, d, ru, rv, phi, h, pubs)
                    implies false by {
                    lemma_sigma_layout(a, b, d, ru, rv, phi, h, pubs);
                }
            }
            return Err(e);
        },
    };
    let (phi_delta_query_g1, p3) = match read_enc_vec(data, p2, 32) {
        Ok(v) => v,
        Err(e) => {
            proof {
                vstd::bytes::lemma_auto_spec_u32_to_from_le_bytes();
                assert forall|
                    a: Seq<u8>,
                    b: Seq<u8>,
                    d: Seq<u8>,
                    ru: Seq<Seq<u8>>,
                    rv: Seq<Seq<u8>>,
                    phi: Seq<Seq<u8>>,
                    h: Seq<Seq<u8>>,
                    pubs: Seq<Seq<u8>>,
                |
                    #[trigger] is_sigma_emission(data@, a, b, d, ru, rv, phi, h, pubs)
                    implies false by {
                    lemma_sigma_layout(a, b, d, ru, rv, phi, h, pubs);
                }
            }
            return Err(e);
        },
    };
    let (h_query_g1, p4) = match read_enc_vec(data, p3, 32) {
        Ok(v) => v,
        Err(e) => {
            proof {
                vstd::bytes::lemma_auto_spec_u32_to_from_le_bytes();
                assert forall|
                    a: Seq<u8>,
                    b: Seq<u8>,
                    d: Seq<u8>,
                    ru: Seq<Seq<u8>>,
                    rv: Seq<Seq<u8>>,
                    phi: Seq<Seq<u8>>,
                    h: Seq<Seq<u8>>,
                    pubs: Seq<Seq<u8>>,
                |
                    #[trigger] is_sigma_emission(data@, a, b, d, ru, rv, phi, h, pubs)
                    implies false by {
                    lemma_sigma_layout(a, b, d, ru, rv, phi, h, pubs);
                }
            }
            return Err(e);
        },
    };
    let (pub_cells, p5) = match read_enc_vec(data, p4, 32) {
        Ok(v) => v,
        Err(e) => {
            proof {
                vstd::bytes::lemma_auto_spec_u32_to_from_le_bytes();
                assert forall|
                    a: Seq<u8>,
                    b: Seq<u8>,
                    d: Seq<u8>,
                    ru: Seq<Seq<u8>>,
                    rv: Seq<Seq<u8>>,
                    phi: Seq<Seq<u8>>,
                    h: Seq<Seq<u8>>,
                    pubs: Seq<Seq<u8>>,
                |
                    #[trigger] is_sigma_emission(data@, a, b, d, ru, rv, phi, h, pubs)
                    implies false by {
                    lemma_sigma_layout(a, b, d, ru, rv, phi, h, pubs);
                }
            }
            return Err(e);
        },
    };
    if p5 != n {
        proof {
            vstd::bytes::lemma_auto_spec_u32_to_from_le_bytes();
            assert forall|
                a: Seq<u8>,
                b: Seq<u8>,
                d: Seq<u8>,
                ru: Seq<Seq<u8>>,
                rv: Seq<Seq<u8>>,
                phi: Seq<Seq<u8>>,
                h: Seq<Seq<u8>>,
                pubs: Seq<Seq<u8>>,
            |
                #[trigger] is_sigma_emission(data@, a, b, d, ru, rv, phi, h, pubs)
                implies false by {
                lemma_sigma_layout(a, b, d, ru, rv, phi, h, pubs);
            }
        }
        return Err(Error::TruncatedSection);
    }
    let mut public_inputs: Vec<Fe> = Vec::new();
    let k = pub_cells.len();
    let mut i: usize = 0;
    while i < k
        invariant
            k == pub_cells@.len(),
            i <= k,
            public_inputs@.len() == i as nat,
            forall|t: int|
                0 <= t < i as int ==> (#[trigger] public_inputs@[t]).wf()
                    && public_inputs@[t].val() == le_val(pub_cells@[t]@) % fr_order(),
        decreases k - i,
    {
        public_inputs.push(fe_reduce(&pub_cells[i]));
        i = i + 1;
    }
    let ct = Ciphertext {
        encap_key: EncapKey {
            alpha_g1,
            beta_g2,
            delta_g2,
            r_u_query_g1,
            r_v_query_g2,
            phi_delta_query_g1,
            h_query_g1,
        },
        public_inputs,
    };
    proof {
        vstd::bytes::lemma_auto_spec_u32_to_from_le_bytes();
        assert forall|
            a: Seq<u8>,
            b: Seq<u8>,
            d: Seq<u8>,
            ru: Seq<Seq<u8>>,
            rv: Seq<Seq<u8>>,
            phi: Seq<Seq<u8>>,
            h: Seq<Seq<u8>>,
            pubs: Seq<Seq<u8>>,
        |
            #[trigger] is_sigma_emission(data@, a, b, d, ru, rv, phi, h, pubs) implies (
        ct.encap_key.alpha_g1@ == a && ct.encap_key.beta_g2@ == b && ct.encap_key.delta_g2@
            == d && enc_views(ct.encap_key.r_u_query_g1@) =~= ru && enc_views(
            ct.encap_key.r_v_query_g2@,
        ) =~= rv && enc_views(ct.encap_key.phi_delta_query_g1@) =~= phi && enc_views(
            ct.encap_key.h_query_g1@,
        ) =~= h && fe_views(ct.public_inputs@) =~= pubs) by {
            lemma_sigma_layout(a, b, d, ru, rv, phi, h, pubs);
            let o1 = 164 + 32 * ru.len();
            let o2 = o1 + 4 + 64 * rv.len();
            let o3 = o2 + 4 + 32 * phi.len();
            let o4 = o3 + 4 + 32 * h.len();
            crate::witness::lemma_cells_reads(data@, 164, ru, 32);
            assert(r_u_query_g1@.len() == ru.len());
            assert(p1 as int == o1);
            crate::witness::lemma_cells_reads(data@, o1 as int + 4, rv, 64);
            assert(r_v_query_g2@.len() == rv.len());
            assert(p2 as int == o2);
            crate::witness::lemma_cells_reads(data@, o2 as int + 4, phi, 32);
            assert(phi_delta_query_g1@.len() == phi.len());
            assert(p3 as int == o3);
            crate::witness::lemma_cells_reads(data@, o3 as int + 4, h, 32);
            assert(h_query_g1@.len() == h.len());
            assert(p4 as int == o4);
            crate::witness::lemma_cells_reads(data@, o4 as int + 4, pubs, 32);
            assert(pub_cells@.len() == pubs.len());
            assert forall|t: int| 0 <= t < pubs.len() implies (#[trigger] fe_views(
                ct.public_inputs@,
            )[t]) == pubs[t] by {
                assert(pub_cells@[t]@ == pubs[t]);
                assert(ct.public_inputs@[t].val() == le_val(pubs[t]) % fr_order());
                vstd::arithmetic::div_mod::lemma_small_mod(le_val(pubs[t]), fr_order());
                crate::field::lemma_le_val_injective(ct.public_inputs@[t].b@, pubs[t]);
            }
        }
    }
    Ok(ct)
}

} // verus!
