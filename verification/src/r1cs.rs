//! The `r1cs` binary container (iden3 version 1).
//!
//! The container is: magic `"r1cs"`, a 4-byte version (must be 1), a 4-byte
//! section count, then sections, each prefixed by a 4-byte type and an 8-byte
//! little-endian length.  The header section (type 1) carries the field byte
//! width, the prime, and the wire, input and constraint counts; the
//! constraints section (type 2) carries, per constraint, three linear
//! combinations, each a 4-byte factor count followed by (wire id,
//! coefficient) pairs; the optional wire-to-label section (type 3) carries
//! one 8-byte label per wire.
//!
//! Parsing and emission are both specified against the byte-level model
//! below, and emission followed by parsing provably returns the same typed
//! container.

use crate::bytesutil::{read_u32_le, read_u64_le, take_bytes};
use crate::errors::Error;
use vstd::bytes::{
    spec_u32_from_le_bytes, spec_u32_to_le_bytes, spec_u64_from_le_bytes, spec_u64_to_le_bytes,
};
use vstd::prelude::*;

verus! {

/// One factor of a linear combination: a wire id and the coefficient's
/// little-endian bytes.
#[verifier::ext_equal]
pub struct FactorView {
    pub wire: u32,
    pub coeff: Seq<u8>,
}

/// A linear combination as a sparse factor list.
#[verifier::ext_equal]
pub struct LcView {
    pub factors: Seq<FactorView>,
}

/// One rank-1 constraint `⟨a,z⟩·⟨b,z⟩ = ⟨c,z⟩`.
#[verifier::ext_equal]
pub struct ConstraintView {
    pub a: LcView,
    pub b: LcView,
    pub c: LcView,
}

/// The typed content of an `r1cs` container.
#[verifier::ext_equal]
pub struct R1csView {
    pub field_size: u32,
    pub prime: Seq<u8>,
    pub n_wires: u32,
    pub n_pub_out: u32,
    pub n_pub_in: u32,
    pub n_prv_in: u32,
    pub n_labels: u64,
    pub n_constraints: u32,
    pub constraints: Seq<ConstraintView>,
    pub wire2label: Seq<u64>,
}

/// A linear combination over already-parsed wires: pairs of wire id and
/// coefficient bytes.
pub struct LinearCombination {
    pub factors: Vec<(u32, Vec<u8>)>,
}

impl View for LinearCombination {
    type V = LcView;

    open spec fn view(&self) -> LcView {
        LcView {
            factors: Seq::new(
                self.factors@.len(),
                |i: int| FactorView { wire: self.factors@[i].0, coeff: self.factors@[i].1@ },
            ),
        }
    }
}

/// One parsed constraint.
pub struct Constraint {
    pub a: LinearCombination,
    pub b: LinearCombination,
    pub c: LinearCombination,
}

impl View for Constraint {
    type V = ConstraintView;

    open spec fn view(&self) -> ConstraintView {
        ConstraintView { a: self.a@, b: self.b@, c: self.c@ }
    }
}

/// A parsed `r1cs` container.
pub struct R1csFile {
    pub field_size: u32,
    pub prime: Vec<u8>,
    pub n_wires: u32,
    pub n_pub_out: u32,
    pub n_pub_in: u32,
    pub n_prv_in: u32,
    pub n_labels: u64,
    pub n_constraints: u32,
    pub constraints: Vec<Constraint>,
    pub wire2label: Vec<u64>,
}

impl View for R1csFile {
    type V = R1csView;

    open spec fn view(&self) -> R1csView {
        R1csView {
            field_size: self.field_size,
            prime: self.prime@,
            n_wires: self.n_wires,
            n_pub_out: self.n_pub_out,
            n_pub_in: self.n_pub_in,
            n_prv_in: self.n_prv_in,
            n_labels: self.n_labels,
            n_constraints: self.n_constraints,
            constraints: Seq::new(self.constraints@.len(), |i: int| self.constraints@[i]@),
            wire2label: self.wire2label@,
        }
    }
}

/// The bytes of one factor: wire id, then the coefficient.
pub open spec fn factor_bytes(f: FactorView) -> Seq<u8> {
    spec_u32_to_le_bytes(f.wire) + f.coeff
}

/// The bytes of a factor list, in order.
pub open spec fn factors_bytes(s: Seq<FactorView>) -> Seq<u8>
    decreases s.len(),
{
    if s.len() == 0 {
        Seq::empty()
    } else {
        factors_bytes(s.drop_last()) + factor_bytes(s.last())
    }
}

/// The bytes of a linear combination: factor count, then the factors.
pub open spec fn lc_bytes(lc: LcView) -> Seq<u8> {
    spec_u32_to_le_bytes(lc.factors.len() as u32) + factors_bytes(lc.factors)
}

/// The bytes of one constraint: its three linear combinations in order.
pub open spec fn constraint_bytes(c: ConstraintView) -> Seq<u8> {
    lc_bytes(c.a) + lc_bytes(c.b) + lc_bytes(c.c)
}

/// The bytes of the constraint rows, in order.
pub open spec fn constraints_bytes(s: Seq<ConstraintView>) -> Seq<u8>
    decreases s.len(),
{
    if s.len() == 0 {
        Seq::empty()
    } else {
        constraints_bytes(s.drop_last()) + constraint_bytes(s.last())
    }
}

/// The body of the header section.
pub open spec fn header_body_bytes(v: R1csView) -> Seq<u8> {
    spec_u32_to_le_bytes(v.field_size) + v.prime + spec_u32_to_le_bytes(v.n_wires)
        + spec_u32_to_le_bytes(v.n_pub_out) + spec_u32_to_le_bytes(v.n_pub_in)
        + spec_u32_to_le_bytes(v.n_prv_in) + spec_u64_to_le_bytes(v.n_labels)
        + spec_u32_to_le_bytes(v.n_constraints)
}

/// The bytes of the wire-to-label section body.
pub open spec fn labels_bytes(s: Seq<u64>) -> Seq<u8>
    decreases s.len(),
{
    if s.len() == 0 {
        Seq::empty()
    } else {
        labels_bytes(s.drop_last()) + spec_u64_to_le_bytes(s.last())
    }
}

/// A section: type word, length word, body.
pub open spec fn section_bytes(t: u32, body: Seq<u8>) -> Seq<u8> {
    spec_u32_to_le_bytes(t) + spec_u64_to_le_bytes(body.len() as u64) + body
}

/// The magic bytes `"r1cs"`.
pub open spec fn r1cs_magic() -> Seq<u8> {
    seq![0x72u8, 0x31u8, 0x63u8, 0x73u8]
}

/// The canonical emission of a typed container: magic, version 1, three
/// sections in header / constraints / labels order.
pub open spec fn r1cs_bytes(v: R1csView) -> Seq<u8> {
    r1cs_magic() + spec_u32_to_le_bytes(1u32) + spec_u32_to_le_bytes(3u32) + section_bytes(
        1u32,
        header_body_bytes(v),
    ) + section_bytes(2u32, constraints_bytes(v.constraints)) + section_bytes(
        3u32,
        labels_bytes(v.wire2label),
    )
}

/// Well-formedness of a linear combination with respect to the field byte
/// width: every coefficient is `fs` bytes, and the factor count fits the
/// 4-byte count word.
pub open spec fn lc_wf(lc: LcView, fs: nat) -> bool {
    &&& lc.factors.len() <= 0xffffffffnat
    &&& forall|i: int| 0 <= i < lc.factors.len() ==> #[trigger] lc.factors[i].coeff.len() == fs
}

/// Well-formedness of a constraint.
pub open spec fn constraint_wf(c: ConstraintView, fs: nat) -> bool {
    lc_wf(c.a, fs) && lc_wf(c.b, fs) && lc_wf(c.c, fs)
}

/// Well-formedness of the typed container: the declared counts match the
/// carried data and every coefficient has the declared width.
pub open spec fn r1cs_wf_view(v: R1csView) -> bool {
    &&& v.prime.len() == v.field_size as nat
    &&& v.constraints.len() == v.n_constraints as nat
    &&& v.wire2label.len() == v.n_wires as nat
    &&& forall|i: int|
        0 <= i < v.constraints.len() ==> constraint_wf(
            #[trigger] v.constraints[i],
            v.field_size as nat,
        )
}

impl R1csFile {
    /// Well-formedness of the parsed container.
    pub open spec fn wf(&self) -> bool {
        r1cs_wf_view(self@)
    }

    /// The number of public wires: outputs plus inputs.
    pub fn n_public_inputs(&self) -> (r: u32)
        requires
            self.n_pub_out + self.n_pub_in <= u32::MAX,
        ensures
            r == self.n_pub_out + self.n_pub_in,
    {
        self.n_pub_out + self.n_pub_in
    }
}

/// Appends one linear combination's bytes.
fn emit_lc(out: &mut Vec<u8>, lc: &LinearCombination)
    requires
        lc@.factors.len() <= 0xffffffffnat,
    ensures
        final(out)@ == old(out)@ + lc_bytes(lc@),
{
    let k = lc.factors.len();
    crate::bytesutil::push_u32_le(out, k as u32);
    let mut i: usize = 0;
    while i < k
        invariant
            k == lc.factors@.len(),
            k <= 0xffffffffnat,
            i <= k,
            out@ == old(out)@ + spec_u32_to_le_bytes(k as u32) + factors_bytes(
                lc@.factors.subrange(0, i as int),
            ),
        decreases k - i,
    {
        let ghost pre = lc@.factors.subrange(0, i as int);
        crate::bytesutil::push_u32_le(out, lc.factors[i].0);
        crate::bytesutil::push_bytes(out, &lc.factors[i].1);
        proof {
            let cur = lc@.factors.subrange(0, i as int + 1);
            assert(cur.drop_last() =~= pre);
            assert(cur.last() == lc@.factors[i as int]);
            assert(factors_bytes(cur) == factors_bytes(pre) + factor_bytes(lc@.factors[i as int]));
            assert(out@ =~= old(out)@ + spec_u32_to_le_bytes(k as u32) + factors_bytes(cur));
        }
        i = i + 1;
    }
    proof {
        assert(lc@.factors.subrange(0, k as int) =~= lc@.factors);
        assert(final(out)@ =~= old(out)@ + lc_bytes(lc@));
    }
}

/// Appends the constraint rows' bytes.
fn emit_constraints(out: &mut Vec<u8>, cs: &Vec<Constraint>)
    requires
        forall|i: int|
            0 <= i < cs@.len() ==> #[trigger] cs@[i]@.a.factors.len() <= 0xffffffffnat
                && cs@[i]@.b.factors.len() <= 0xffffffffnat && cs@[i]@.c.factors.len()
                <= 0xffffffffnat,
    ensures
        final(out)@ == old(out)@ + constraints_bytes(
            Seq::new(cs@.len(), |i: int| cs@[i]@),
        ),
{
    let ghost view = Seq::new(cs@.len(), |i: int| cs@[i]@);
    let n = cs.len();
    let mut i: usize = 0;
    while i < n
        invariant
            n == cs@.len(),
            view == Seq::new(cs@.len(), |j: int| cs@[j]@),
            forall|j: int|
                0 <= j < cs@.len() ==> #[trigger] cs@[j]@.a.factors.len() <= 0xffffffffnat
                    && cs@[j]@.b.factors.len() <= 0xffffffffnat && cs@[j]@.c.factors.len()
                    <= 0xffffffffnat,
            i <= n,
            out@ == old(out)@ + constraints_bytes(view.subrange(0, i as int)),
        decreases n - i,
    {
        let ghost pre = view.subrange(0, i as int);
        proof {
            assert(cs@[i as int]@.a.factors.len() <= 0xffffffffnat && cs@[i as int]@.b.factors.len()
                <= 0xffffffffnat && cs@[i as int]@.c.factors.len() <= 0xffffffffnat);
        }
        emit_lc(out, &cs[i].a);
        emit_lc(out, &cs[i].b);
        emit_lc(out, &cs[i].c);
        proof {
            let cur = view.subrange(0, i as int + 1);
            assert(cur.drop_last() =~= pre);
            assert(cur.last() == view[i as int]);
            assert(out@ =~= old(out)@ + constraints_bytes(cur));
        }
        i = i + 1;
    }
    proof {
        assert(view.subrange(0, n as int) =~= view);
    }
}

/// Appends the wire-to-label bytes.
fn emit_labels(out: &mut Vec<u8>, ls: &Vec<u64>)
    ensures
        final(out)@ == old(out)@ + labels_bytes(ls@),
{
    let n = ls.len();
    let mut i: usize = 0;
    while i < n
        invariant
            n == ls@.len(),
            i <= n,
            out@ == old(out)@ + labels_bytes(ls@.subrange(0, i as int)),
        decreases n - i,
    {
        let ghost pre = ls@.subrange(0, i as int);
        crate::bytesutil::push_u64_le(out, ls[i]);
        proof {
            let cur = ls@.subrange(0, i as int + 1);
            assert(cur.drop_last() =~= pre);
            assert(cur.last() == ls@[i as int]);
            assert(out@ =~= old(out)@ + labels_bytes(cur));
        }
        i = i + 1;
    }
    proof {
        assert(ls@.subrange(0, n as int) =~= ls@);
    }
}

/// Rebuilds the canonical byte layout of the container.
pub fn emit_r1cs(f: &R1csFile) -> (r: Vec<u8>)
    requires
        f.wf(),
        r1cs_bytes(f@).len() <= usize::MAX as nat,
    ensures
        r@ == r1cs_bytes(f@),
{
    let mut header: Vec<u8> = Vec::new();
    crate::bytesutil::push_u32_le(&mut header, f.field_size);
    crate::bytesutil::push_bytes(&mut header, &f.prime);
    crate::bytesutil::push_u32_le(&mut header, f.n_wires);
    crate::bytesutil::push_u32_le(&mut header, f.n_pub_out);
    crate::bytesutil::push_u32_le(&mut header, f.n_pub_in);
    crate::bytesutil::push_u32_le(&mut header, f.n_prv_in);
    crate::bytesutil::push_u64_le(&mut header, f.n_labels);
    crate::bytesutil::push_u32_le(&mut header, f.n_constraints);
    proof {
        assert(header@ =~= header_body_bytes(f@));
    }

    let mut body: Vec<u8> = Vec::new();
    proof {
        assert forall|i: int| 0 <= i < f.constraints@.len() implies #[trigger] f.constraints@[i]@
            .a.factors.len() <= 0xffffffffnat && f.constraints@[i]@.b.factors.len()
            <= 0xffffffffnat && f.constraints@[i]@.c.factors.len() <= 0xffffffffnat by {
            assert(constraint_wf(f@.constraints[i], f@.field_size as nat));
        }
    }
    emit_constraints(&mut body, &f.constraints);
    proof {
        assert(Seq::new(f.constraints@.len(), |i: int| f.constraints@[i]@) == f@.constraints);
    }

    let mut labels: Vec<u8> = Vec::new();
    emit_labels(&mut labels, &f.wire2label);

    let mut out: Vec<u8> = Vec::new();
    out.push(0x72u8);
    out.push(0x31u8);
    out.push(0x63u8);
    out.push(0x73u8);
    proof {
        assert(out@ =~= r1cs_magic());
    }
    crate::bytesutil::push_u32_le(&mut out, 1u32);
    crate::bytesutil::push_u32_le(&mut out, 3u32);

    proof {
        lemma_r1cs_bytes_len(f@);
    }
    crate::bytesutil::push_u32_le(&mut out, 1u32);
    crate::bytesutil::push_u64_le(&mut out, header.len() as u64);
    crate::bytesutil::push_bytes(&mut out, &header);

    crate::bytesutil::push_u32_le(&mut out, 2u32);
    crate::bytesutil::push_u64_le(&mut out, body.len() as u64);
    crate::bytesutil::push_bytes(&mut out, &body);

    crate::bytesutil::push_u32_le(&mut out, 3u32);
    crate::bytesutil::push_u64_le(&mut out, labels.len() as u64);
    crate::bytesutil::push_bytes(&mut out, &labels);

    proof {
        assert(out@ =~= r1cs_bytes(f@));
    }
    out
}

/// The emission is at least as long as each of its section bodies, so each
/// body length fits an 8-byte word whenever the whole emission is
/// addressable.
proof fn lemma_r1cs_bytes_len(v: R1csView)
    ensures
        r1cs_bytes(v).len() == 48 + header_body_bytes(v).len() + constraints_bytes(
            v.constraints,
        ).len() + labels_bytes(v.wire2label).len(),
{
    vstd::bytes::lemma_auto_spec_u32_to_from_le_bytes();
    vstd::bytes::lemma_auto_spec_u64_to_from_le_bytes();
}

/// The factor stored at byte offset `p`: wire id, then `fs` coefficient
/// bytes.
pub open spec fn read_factor(data: Seq<u8>, p: int, fs: nat) -> FactorView {
    FactorView {
        wire: spec_u32_from_le_bytes(data.subrange(p, p + 4)),
        coeff: data.subrange(p + 4, p + 4 + fs),
    }
}

proof fn lemma_factors_bytes_concat(a: Seq<FactorView>, b: Seq<FactorView>)
    ensures
        factors_bytes(a + b) == factors_bytes(a) + factors_bytes(b),
    decreases b.len(),
{
    if b.len() == 0 {
        assert(a + b =~= a);
        assert(factors_bytes(a) + factors_bytes(b) =~= factors_bytes(a));
    } else {
        lemma_factors_bytes_concat(a, b.drop_last());
        assert((a + b).drop_last() =~= a + b.drop_last());
        assert((a + b).last() == b.last());
        assert(factors_bytes(a) + (factors_bytes(b.drop_last()) + factor_bytes(b.last())) =~= (
        factors_bytes(a) + factors_bytes(b.drop_last())) + factor_bytes(b.last()));
    }
}

proof fn lemma_factors_bytes_len(s: Seq<FactorView>, fs: nat)
    requires
        forall|i: int| 0 <= i < s.len() ==> #[trigger] s[i].coeff.len() == fs,
    ensures
        factors_bytes(s).len() == s.len() * (4 + fs),
    decreases s.len(),
{
    vstd::bytes::lemma_auto_spec_u32_to_from_le_bytes();
    if s.len() == 0 {
    } else {
        lemma_factors_bytes_len(s.drop_last(), fs);
        assert(factor_bytes(s.last()).len() == 4 + fs);
        assert((s.len() - 1) * (4 + fs) + (4 + fs) == s.len() * (4 + fs)) by (nonlinear_arith);
    }
}

proof fn lemma_factors_bytes_index(s: Seq<FactorView>, fs: nat, i: int)
    requires
        forall|j: int| 0 <= j < s.len() ==> #[trigger] s[j].coeff.len() == fs,
        0 <= i < s.len(),
    ensures
        factors_bytes(s).subrange(i * (4 + fs), (i + 1) * (4 + fs)) == factor_bytes(s[i]),
{
    vstd::bytes::lemma_auto_spec_u32_to_from_le_bytes();
    let pre = s.subrange(0, i);
    let mid = seq![s[i]];
    let post = s.subrange(i + 1, s.len() as int);
    assert(s =~= (pre + mid) + post);
    lemma_factors_bytes_concat(pre + mid, post);
    lemma_factors_bytes_concat(pre, mid);
    assert(mid.drop_last() =~= Seq::<FactorView>::empty());
    assert(factors_bytes(mid) == factors_bytes(mid.drop_last()) + factor_bytes(mid.last()));
    assert(mid.last() == s[i]);
    assert(factors_bytes(Seq::<FactorView>::empty()) == Seq::<u8>::empty());
    assert(factors_bytes(mid) =~= factor_bytes(s[i]));
    lemma_factors_bytes_len(pre, fs);
    lemma_factors_bytes_len(post, fs);
    lemma_factors_bytes_len(s, fs);
    let w = 4 + fs as int;
    assert((i + 1) * w == i * w + w && 0 <= i * w && (i + 1) * w <= s.len() * w)
        by (nonlinear_arith)
        requires
            0 <= i < s.len(),
            w == 4 + fs,
    ;
    let fb = factors_bytes(s);
    assert(fb == (factors_bytes(pre) + factor_bytes(s[i])) + factors_bytes(post));
    assert forall|t: int| 0 <= t < w implies #[trigger] fb.subrange(i * w, i * w + w)[t]
        == factor_bytes(s[i])[t] by {
        assert(((factors_bytes(pre) + factor_bytes(s[i])) + factors_bytes(post))[i * w + t]
            == factor_bytes(s[i])[t]);
    }
    assert(fb.subrange(i * w, i * w + w) =~= factor_bytes(s[i]));
    assert(fb.subrange(i * (4 + fs), (i + 1) * (4 + fs)) == fb.subrange(i * w, i * w + w));
}

/// If the bytes of a well-formed linear combination stand at `pos`, the
/// count word and every factor read back from the buffer are the ones that
/// were written.
proof fn lemma_lc_reads(data: Seq<u8>, pos: int, lcv: LcView, fs: nat)
    requires
        lc_wf(lcv, fs),
        0 <= pos,
        pos + lc_bytes(lcv).len() <= data.len(),
        data.subrange(pos, pos + lc_bytes(lcv).len()) == lc_bytes(lcv),
    ensures
        lc_bytes(lcv).len() == 4 + lcv.factors.len() * (4 + fs),
        spec_u32_from_le_bytes(data.subrange(pos, pos + 4)) as nat == lcv.factors.len(),
        forall|i: int|
            0 <= i < lcv.factors.len() ==> read_factor(data, pos + 4 + i * (4 + fs), fs)
                =~= lcv.factors[i],
{
    vstd::bytes::lemma_auto_spec_u32_to_from_le_bytes();
    lemma_factors_bytes_len(lcv.factors, fs);
    let lb = lc_bytes(lcv);
    let fb = factors_bytes(lcv.factors);
    let cw = spec_u32_to_le_bytes(lcv.factors.len() as u32);
    crate::bytesutil::lemma_subrange_at(data, pos, Seq::empty(), cw, fb);
    assert(data.subrange(pos, pos + 4) == cw);
    assert forall|i: int| 0 <= i < lcv.factors.len() implies read_factor(
        data,
        pos + 4 + i * (4 + fs),
        fs,
    ) =~= lcv.factors[i] by {
        lemma_factors_bytes_index(lcv.factors, fs, i);
        let w = 4 + fs as int;
        let p = pos + 4 + i * w;
        assert(0 <= i * w && (i + 1) * w <= lcv.factors.len() * w && (i + 1) * w == i * w + w)
            by (nonlinear_arith)
            requires
                0 <= i < lcv.factors.len(),
                w == 4 + fs,
        ;
        crate::bytesutil::lemma_split3(fb, i * w, i * w + w);
        let fpre = fb.subrange(0, i * w);
        let fpost = fb.subrange(i * w + w, fb.len() as int);
        let wire_w = spec_u32_to_le_bytes(lcv.factors[i].wire);
        assert(fb.subrange(i * w, i * w + w) == factor_bytes(lcv.factors[i]));
        assert(lb =~= (cw + fpre) + wire_w + (lcv.factors[i].coeff + fpost));
        crate::bytesutil::lemma_subrange_at(data, pos, cw + fpre, wire_w,
            lcv.factors[i].coeff + fpost);
        assert(lb =~= ((cw + fpre) + wire_w) + lcv.factors[i].coeff + fpost);
        crate::bytesutil::lemma_subrange_at(data, pos, (cw + fpre) + wire_w,
            lcv.factors[i].coeff, fpost);
        assert(data.subrange(p, p + 4) == wire_w);
        assert(data.subrange(p + 4, p + 4 + fs) == lcv.factors[i].coeff);
    }
}

/// One parsed linear combination: the factor list and the position just
/// after it.  Every read is pinned to the bytes of the buffer, so a caller
/// that knows what the bytes hold knows what was parsed.
fn parse_lc(data: &Vec<u8>, pos: usize, end: usize, fs: usize) -> (r: Result<
    (LinearCombination, usize),
    Error,
>)
    requires
        pos <= end,
        end <= data@.len(),
    ensures
        r matches Ok(p) ==> {
            &&& pos + 4 <= end
            &&& p.0@.factors.len() == spec_u32_from_le_bytes(
                data@.subrange(pos as int, pos as int + 4),
            ) as nat
            &&& p.1 as int == pos + 4 + p.0@.factors.len() * (4 + fs as nat)
            &&& p.1 <= end
            &&& forall|i: int|
                0 <= i < p.0@.factors.len() ==> p.0@.factors[i] =~= read_factor(
                    data@,
                    pos + 4 + i * (4 + fs as nat),
                    fs as nat,
                )
            &&& lc_wf(p.0@, fs as nat)
        },
        r matches Err(e) ==> {
            &&& e == Error::TruncatedSection
            &&& (end < pos + 4 || pos + 4 + (spec_u32_from_le_bytes(
                data@.subrange(pos as int, pos as int + 4),
            ) as nat) * (4 + fs as nat) > end)
        },
{
    if end - pos < 4 {
        return Err(Error::TruncatedSection);
    }
    let k = read_u32_le(data, pos);
    let mut factors: Vec<(u32, Vec<u8>)> = Vec::new();
    let mut cur: usize = pos + 4;
    let mut i: u32 = 0;
    while i < k
        invariant
            pos <= end <= data@.len(),
            pos + 4 <= end,
            i <= k,
            factors@.len() == i as nat,
            cur as int == pos + 4 + (i as nat) * (4 + fs as nat),
            cur <= end,
            k == spec_u32_from_le_bytes(data@.subrange(pos as int, pos as int + 4)),
            forall|j: int| 0 <= j < i as int ==> (#[trigger] factors@[j]).1@.len() == fs as nat,
            forall|j: int|
                0 <= j < i as int ==> (#[trigger] factors@[j]).0 == read_factor(
                    data@,
                    pos + 4 + j * (4 + fs as nat),
                    fs as nat,
                ).wire && factors@[j].1@ == read_factor(
                    data@,
                    pos + 4 + j * (4 + fs as nat),
                    fs as nat,
                ).coeff,
        decreases k - i,
    {
        proof {
            assert((i as int + 1) * (4 + fs as nat) == (i as nat) * (4 + fs as nat) + (4
                + fs as nat)) by (nonlinear_arith);
            assert((k as nat) * (4 + fs as nat) >= (i as nat) * (4 + fs as nat) + (4 + fs as nat))
                by (nonlinear_arith)
                requires
                    i < k,
            ;
        }
        if end - cur < 4 {
            return Err(Error::TruncatedSection);
        }
        let wire = read_u32_le(data, cur);
        if end - (cur + 4) < fs {
            return Err(Error::TruncatedSection);
        }
        let coeff = take_bytes(data, cur + 4, fs);
        factors.push((wire, coeff));
        cur = cur + 4 + fs;
        i = i + 1;
    }
    proof {
        assert(LinearCombination { factors }@.factors.len() == k as nat);
        assert forall|j2: int| 0 <= j2 < factors@.len() implies LinearCombination {
            factors,
        }@.factors[j2] =~= read_factor(data@, pos + 4 + j2 * (4 + fs as nat), fs as nat) by {
            assert(factors@[j2].0 == read_factor(
                data@,
                pos + 4 + j2 * (4 + fs as nat),
                fs as nat,
            ).wire && factors@[j2].1@ == read_factor(
                data@,
                pos + 4 + j2 * (4 + fs as nat),
                fs as nat,
            ).coeff);
        }
    }
    Ok((LinearCombination { factors }, cur))
}

/// The fields read from a header section body.
struct HeaderParts {
    field_size: u32,
    prime: Vec<u8>,
    n_wires: u32,
    n_pub_out: u32,
    n_pub_in: u32,
    n_prv_in: u32,
    n_labels: u64,
    n_constraints: u32,
}

/// Decodes the header section body between `start` and `end`; every field is
/// pinned to the bytes it was read from.
fn parse_header(data: &Vec<u8>, start: usize, end: usize) -> (r: Result<HeaderParts, Error>)
    requires
        start <= end,
        end <= data@.len(),
    ensures
        r matches Ok(h) ==> {
            &&& start + 4 <= end
            &&& h.field_size == spec_u32_from_le_bytes(
                data@.subrange(start as int, start as int + 4),
            )
            &&& start + 32 + h.field_size as int <= end
            &&& h.prime@ == data@.subrange(start + 4, start + 4 + h.field_size as int)
            &&& h.prime@.len() == h.field_size as nat
            &&& h.n_wires == spec_u32_from_le_bytes(
                data@.subrange(
                    start + 4 + h.field_size as int,
                    start + 8 + h.field_size as int,
                ),
            )
            &&& h.n_pub_out == spec_u32_from_le_bytes(
                data@.subrange(
                    start + 8 + h.field_size as int,
                    start + 12 + h.field_size as int,
                ),
            )
            &&& h.n_pub_in == spec_u32_from_le_bytes(
                data@.subrange(
                    start + 12 + h.field_size as int,
                    start + 16 + h.field_size as int,
                ),
            )
            &&& h.n_prv_in == spec_u32_from_le_bytes(
                data@.subrange(
                    start + 16 + h.field_size as int,
                    start + 20 + h.field_size as int,
                ),
            )
            &&& h.n_labels == spec_u64_from_le_bytes(
                data@.subrange(
                    start + 20 + h.field_size as int,
                    start + 28 + h.field_size as int,
                ),
            )
            &&& h.n_constraints == spec_u32_from_le_bytes(
                data@.subrange(
                    start + 28 + h.field_size as int,
                    start + 32 + h.field_size as int,
                ),
            )
        },
        r matches Err(e) ==> {
            &&& e == Error::TruncatedSection
            &&& (end < start + 4 || end < start + 32 + spec_u32_from_le_bytes(
                data@.subrange(start as int, start as int + 4),
            ) as int)
        },
{
    if end - start < 4 {
        return Err(Error::TruncatedSection);
    }
    let field_size = read_u32_le(data, start);
    let fs = field_size as usize;
    if end - (start + 4) < fs {
        return Err(Error::TruncatedSection);
    }
    let prime = take_bytes(data, start + 4, fs);
    if end - (start + 4 + fs) < 28 {
        return Err(Error::TruncatedSection);
    }
    let p = start + 4 + fs;
    let n_wires = read_u32_le(data, p);
    let n_pub_out = read_u32_le(data, p + 4);
    let n_pub_in = read_u32_le(data, p + 8);
    let n_prv_in = read_u32_le(data, p + 12);
    let n_labels = read_u64_le(data, p + 16);
    let n_constraints = read_u32_le(data, p + 24);
    Ok(
        HeaderParts {
            field_size,
            prime,
            n_wires,
            n_pub_out,
            n_pub_in,
            n_prv_in,
            n_labels,
            n_constraints,
        },
    )
}

/// The header body reads back the fields that were written into it.
proof fn lemma_header_reads(data: Seq<u8>, base: int, v: R1csView)
    requires
        v.prime.len() == v.field_size as nat,
        0 <= base,
        base + header_body_bytes(v).len() <= data.len(),
        data.subrange(base, base + header_body_bytes(v).len()) == header_body_bytes(v),
    ensures
        header_body_bytes(v).len() == 32 + v.field_size as int,
        spec_u32_from_le_bytes(data.subrange(base, base + 4)) == v.field_size,
        data.subrange(base + 4, base + 4 + v.field_size as int) == v.prime,
        spec_u32_from_le_bytes(
            data.subrange(base + 4 + v.field_size as int, base + 8 + v.field_size as int),
        ) == v.n_wires,
        spec_u32_from_le_bytes(
            data.subrange(base + 8 + v.field_size as int, base + 12 + v.field_size as int),
        ) == v.n_pub_out,
        spec_u32_from_le_bytes(
            data.subrange(base + 12 + v.field_size as int, base + 16 + v.field_size as int),
        ) == v.n_pub_in,
        spec_u32_from_le_bytes(
            data.subrange(base + 16 + v.field_size as int, base + 20 + v.field_size as int),
        ) == v.n_prv_in,
        spec_u64_from_le_bytes(
            data.subrange(base + 20 + v.field_size as int, base + 28 + v.field_size as int),
        ) == v.n_labels,
        spec_u32_from_le_bytes(
            data.subrange(base + 28 + v.field_size as int, base + 32 + v.field_size as int),
        ) == v.n_constraints,
{
    vstd::bytes::lemma_auto_spec_u32_to_from_le_bytes();
    vstd::bytes::lemma_auto_spec_u64_to_from_le_bytes();
    let hb = header_body_bytes(v);
    let fsi = v.field_size as int;
    let c0 = spec_u32_to_le_bytes(v.field_size);
    let c2 = spec_u32_to_le_bytes(v.n_wires);
    let c3 = spec_u32_to_le_bytes(v.n_pub_out);
    let c4 = spec_u32_to_le_bytes(v.n_pub_in);
    let c5 = spec_u32_to_le_bytes(v.n_prv_in);
    let c6 = spec_u64_to_le_bytes(v.n_labels);
    let c7 = spec_u32_to_le_bytes(v.n_constraints);
    assert(hb =~= Seq::empty() + c0 + (v.prime + c2 + c3 + c4 + c5 + c6 + c7));
    crate::bytesutil::lemma_subrange_at(data, base, Seq::empty(), c0,
        v.prime + c2 + c3 + c4 + c5 + c6 + c7);
    assert(hb =~= c0 + v.prime + (c2 + c3 + c4 + c5 + c6 + c7));
    crate::bytesutil::lemma_subrange_at(data, base, c0, v.prime, c2 + c3 + c4 + c5 + c6 + c7);
    assert(hb =~= (c0 + v.prime) + c2 + (c3 + c4 + c5 + c6 + c7));
    crate::bytesutil::lemma_subrange_at(data, base, c0 + v.prime, c2, c3 + c4 + c5 + c6 + c7);
    assert(hb =~= (c0 + v.prime + c2) + c3 + (c4 + c5 + c6 + c7));
    crate::bytesutil::lemma_subrange_at(data, base, c0 + v.prime + c2, c3, c4 + c5 + c6 + c7);
    assert(hb =~= (c0 + v.prime + c2 + c3) + c4 + (c5 + c6 + c7));
    crate::bytesutil::lemma_subrange_at(data, base, c0 + v.prime + c2 + c3, c4, c5 + c6 + c7);
    assert(hb =~= (c0 + v.prime + c2 + c3 + c4) + c5 + (c6 + c7));
    crate::bytesutil::lemma_subrange_at(data, base, c0 + v.prime + c2 + c3 + c4, c5, c6 + c7);
    assert(hb =~= (c0 + v.prime + c2 + c3 + c4 + c5) + c6 + c7);
    crate::bytesutil::lemma_subrange_at(data, base, c0 + v.prime + c2 + c3 + c4 + c5, c6, c7);
    assert(hb =~= (c0 + v.prime + c2 + c3 + c4 + c5 + c6) + c7 + Seq::empty());
    crate::bytesutil::lemma_subrange_at(data, base, c0 + v.prime + c2 + c3 + c4 + c5 + c6, c7,
        Seq::empty());
}

proof fn lemma_labels_bytes_len(s: Seq<u64>)
    ensures
        labels_bytes(s).len() == 8 * s.len(),
    decreases s.len(),
{
    vstd::bytes::lemma_auto_spec_u64_to_from_le_bytes();
    if s.len() > 0 {
        lemma_labels_bytes_len(s.drop_last());
    }
}

proof fn lemma_labels_bytes_index(s: Seq<u64>, i: int)
    requires
        0 <= i < s.len(),
    ensures
        labels_bytes(s).subrange(8 * i, 8 * i + 8) == spec_u64_to_le_bytes(s[i]),
    decreases s.len(),
{
    vstd::bytes::lemma_auto_spec_u64_to_from_le_bytes();
    lemma_labels_bytes_len(s);
    if i == s.len() - 1 {
        lemma_labels_bytes_len(s.drop_last());
        assert(labels_bytes(s).subrange(8 * i, 8 * i + 8) =~= spec_u64_to_le_bytes(s[i]));
    } else {
        lemma_labels_bytes_index(s.drop_last(), i);
        lemma_labels_bytes_len(s.drop_last());
        assert(labels_bytes(s).subrange(8 * i, 8 * i + 8) =~= labels_bytes(
            s.drop_last(),
        ).subrange(8 * i, 8 * i + 8));
    }
}

/// The wire-to-label body reads back the labels that were written into it.
proof fn lemma_labels_reads(data: Seq<u8>, base: int, s: Seq<u64>)
    requires
        0 <= base,
        base + labels_bytes(s).len() <= data.len(),
        data.subrange(base, base + labels_bytes(s).len()) == labels_bytes(s),
    ensures
        labels_bytes(s).len() == 8 * s.len(),
        forall|i: int|
            0 <= i < s.len() ==> spec_u64_from_le_bytes(
                data.subrange(base + 8 * i, base + 8 * i + 8),
            ) == s[i],
{
    vstd::bytes::lemma_auto_spec_u64_to_from_le_bytes();
    lemma_labels_bytes_len(s);
    let lb = labels_bytes(s);
    assert forall|i: int| 0 <= i < s.len() implies spec_u64_from_le_bytes(
        data.subrange(base + 8 * i, base + 8 * i + 8),
    ) == s[i] by {
        lemma_labels_bytes_index(s, i);
        crate::bytesutil::lemma_split3(lb, 8 * i, 8 * i + 8);
        assert(lb.subrange(8 * i, 8 * i + 8) == spec_u64_to_le_bytes(s[i]));
        crate::bytesutil::lemma_subrange_at(data, base, lb.subrange(0, 8 * i),
            spec_u64_to_le_bytes(s[i]), lb.subrange(8 * i + 8, lb.len() as int));
        assert(data.subrange(base + 8 * i, base + 8 * i + 8) == spec_u64_to_le_bytes(s[i]));
    }
}

/// Reads `n` 8-byte labels from `start`.
fn parse_labels(data: &Vec<u8>, start: usize, end: usize, n: u32) -> (r: Result<Vec<u64>, Error>)
    requires
        start <= end,
        end <= data@.len(),
    ensures
        r matches Ok(ls) ==> {
            &&& ls@.len() == n as nat
            &&& start + 8 * n as int <= end
            &&& forall|i: int|
                0 <= i < n as int ==> #[trigger] ls@[i] == spec_u64_from_le_bytes(
                    data@.subrange(start + 8 * i, start + 8 * i + 8),
                )
        },
        r matches Err(e) ==> e == Error::TruncatedSection && end < start + 8 * n as int,
{
    let mut ls: Vec<u64> = Vec::new();
    let mut i: u32 = 0;
    let mut cur: usize = start;
    while i < n
        invariant
            start <= end <= data@.len(),
            i <= n,
            ls@.len() == i as nat,
            cur as int == start + 8 * i as int,
            cur <= end,
            forall|j: int|
                0 <= j < i as int ==> #[trigger] ls@[j] == spec_u64_from_le_bytes(
                    data@.subrange(start + 8 * j, start + 8 * j + 8),
                ),
        decreases n - i,
    {
        if end - cur < 8 {
            return Err(Error::TruncatedSection);
        }
        let x = read_u64_le(data, cur);
        ls.push(x);
        cur = cur + 8;
        i = i + 1;
    }
    Ok(ls)
}

proof fn lemma_constraints_bytes_concat(a: Seq<ConstraintView>, b: Seq<ConstraintView>)
    ensures
        constraints_bytes(a + b) == constraints_bytes(a) + constraints_bytes(b),
    decreases b.len(),
{
    if b.len() == 0 {
        assert(a + b =~= a);
        assert(constraints_bytes(a) + constraints_bytes(b) =~= constraints_bytes(a));
    } else {
        lemma_constraints_bytes_concat(a, b.drop_last());
        assert((a + b).drop_last() =~= a + b.drop_last());
        assert((a + b).last() == b.last());
        assert(constraints_bytes(a) + (constraints_bytes(b.drop_last()) + constraint_bytes(
            b.last(),
        )) =~= (constraints_bytes(a) + constraints_bytes(b.drop_last())) + constraint_bytes(
            b.last(),
        ));
    }
}

/// Splits the constraint rows at row `j`.
proof fn lemma_constraints_bytes_split(s: Seq<ConstraintView>, j: int)
    requires
        0 <= j < s.len(),
    ensures
        constraints_bytes(s) == constraints_bytes(s.subrange(0, j)) + constraint_bytes(s[j])
            + constraints_bytes(s.subrange(j + 1, s.len() as int)),
        constraints_bytes(s.subrange(0, j + 1)) == constraints_bytes(s.subrange(0, j))
            + constraint_bytes(s[j]),
{
    let pre = s.subrange(0, j);
    let mid = seq![s[j]];
    let post = s.subrange(j + 1, s.len() as int);
    assert(s =~= (pre + mid) + post);
    lemma_constraints_bytes_concat(pre + mid, post);
    lemma_constraints_bytes_concat(pre, mid);
    assert(mid.drop_last() =~= Seq::<ConstraintView>::empty());
    assert(constraints_bytes(mid) == constraints_bytes(Seq::<ConstraintView>::empty())
        + constraint_bytes(s[j]));
    assert(constraints_bytes(mid) =~= constraint_bytes(s[j]));
    assert(s.subrange(0, j + 1) =~= pre + mid);
}

/// Under the hypothesis that the bytes of well-formed rows `cvs` stand at
/// `start` and row prefix `j` has been consumed up to `cur`, the three
/// linear combinations of row `j` stand in order at `cur`, within bounds.
proof fn lemma_row_at(
    data: Seq<u8>,
    start: int,
    end: int,
    cvs: Seq<ConstraintView>,
    j: int,
    cur: int,
    fs: nat,
)
    requires
        0 <= start <= end <= data.len(),
        0 <= j < cvs.len(),
        forall|t: int| 0 <= t < cvs.len() ==> constraint_wf(#[trigger] cvs[t], fs),
        start + constraints_bytes(cvs).len() <= end,
        data.subrange(start, start + constraints_bytes(cvs).len()) == constraints_bytes(cvs),
        cur == start + constraints_bytes(cvs.subrange(0, j)).len(),
    ensures
        cur + lc_bytes(cvs[j].a).len() + lc_bytes(cvs[j].b).len() + lc_bytes(cvs[j].c).len()
            <= end,
        start <= cur,
        data.subrange(cur, cur + lc_bytes(cvs[j].a).len()) == lc_bytes(cvs[j].a),
        data.subrange(
            cur + lc_bytes(cvs[j].a).len(),
            cur + lc_bytes(cvs[j].a).len() + lc_bytes(cvs[j].b).len(),
        ) == lc_bytes(cvs[j].b),
        data.subrange(
            cur + lc_bytes(cvs[j].a).len() + lc_bytes(cvs[j].b).len(),
            cur + lc_bytes(cvs[j].a).len() + lc_bytes(cvs[j].b).len() + lc_bytes(
                cvs[j].c,
            ).len(),
        ) == lc_bytes(cvs[j].c),
        start + constraints_bytes(cvs.subrange(0, j + 1)).len() == cur + lc_bytes(
            cvs[j].a,
        ).len() + lc_bytes(cvs[j].b).len() + lc_bytes(cvs[j].c).len(),
{
    lemma_constraints_bytes_split(cvs, j);
    let cb = constraints_bytes(cvs);
    let pre = constraints_bytes(cvs.subrange(0, j));
    let post = constraints_bytes(cvs.subrange(j + 1, cvs.len() as int));
    let la = lc_bytes(cvs[j].a);
    let lb = lc_bytes(cvs[j].b);
    let lc = lc_bytes(cvs[j].c);
    assert(cb =~= pre + la + (lb + lc + post));
    crate::bytesutil::lemma_subrange_at(data, start, pre, la, lb + lc + post);
    assert(cb =~= (pre + la) + lb + (lc + post));
    crate::bytesutil::lemma_subrange_at(data, start, pre + la, lb, lc + post);
    assert(cb =~= (pre + la + lb) + lc + post);
    crate::bytesutil::lemma_subrange_at(data, start, pre + la + lb, lc, post);
}

/// The hypothesis that the bytes of well-formed rows `cvs` stand at
/// `start`, within `end`.
pub open spec fn rows_at(
    data: Seq<u8>,
    start: int,
    end: int,
    n: nat,
    fs: nat,
    cvs: Seq<ConstraintView>,
) -> bool {
    &&& cvs.len() == n
    &&& (forall|t: int| 0 <= t < cvs.len() ==> constraint_wf(#[trigger] cvs[t], fs))
    &&& start + constraints_bytes(cvs).len() <= end
    &&& data.subrange(start, start + constraints_bytes(cvs).len()) == constraints_bytes(cvs)
}

/// Parses `n` constraint rows from `start`.  For any well-formed row list
/// whose bytes stand at `start`, the parse succeeds and returns that list.
fn parse_constraints(data: &Vec<u8>, start: usize, end: usize, n: u32, fs: usize) -> (r: Result<
    Vec<Constraint>,
    Error,
>)
    requires
        start <= end,
        end <= data@.len(),
    ensures
        r matches Ok(cs) ==> {
            &&& cs@.len() == n as nat
            &&& forall|j: int|
                0 <= j < n as int ==> constraint_wf(#[trigger] cs@[j]@, fs as nat)
        },
        forall|cvs: Seq<ConstraintView>|
            #[trigger] rows_at(data@, start as int, end as int, n as nat, fs as nat, cvs) ==> (
            r matches Ok(cs) && Seq::new(cs@.len(), |j: int| cs@[j]@) =~= cvs),
        r matches Err(e) ==> e == Error::TruncatedSection,
{
    let mut out: Vec<Constraint> = Vec::new();
    let mut cur: usize = start;
    let mut j: u32 = 0;
    while j < n
        invariant
            start <= end <= data@.len(),
            j <= n,
            out@.len() == j as nat,
            start <= cur <= end,
            forall|t: int| 0 <= t < j as int ==> constraint_wf(#[trigger] out@[t]@, fs as nat),
            forall|cvs: Seq<ConstraintView>|
                #[trigger] rows_at(data@, start as int, end as int, n as nat, fs as nat, cvs)
                    ==> (cur as int == start + constraints_bytes(
                    cvs.subrange(0, j as int),
                ).len() && Seq::new(out@.len(), |t: int| out@[t]@) =~= cvs.subrange(0, j as int)),
        decreases n - j,
    {
        let ghost pre_cur = cur as int;
        let ghost pre_out = out@;
        let ra = parse_lc(data, cur, end, fs);
        let a = match ra {
            Ok(p) => p,
            Err(e) => {
                proof {
                    assert forall|cvs: Seq<ConstraintView>|
                        #[trigger] rows_at(data@, start as int, end as int, n as nat, fs as nat,
                        cvs) implies false by {
                        lemma_row_at(data@, start as int, end as int, cvs, j as int, pre_cur,
                            fs as nat);
                        lemma_lc_reads(data@, pre_cur, cvs[j as int].a, fs as nat);
                    }
                }
                return Err(e);
            },
        };
        proof {
            assert forall|cvs: Seq<ConstraintView>|
                #[trigger] rows_at(data@, start as int, end as int, n as nat, fs as nat, cvs)
                implies (a.0@ =~= cvs[j as int].a && a.1 as int == pre_cur + lc_bytes(
                cvs[j as int].a,
            ).len()) by {
                lemma_row_at(data@, start as int, end as int, cvs, j as int, pre_cur, fs as nat);
                lemma_lc_reads(data@, pre_cur, cvs[j as int].a, fs as nat);
                assert(a.0@.factors =~= cvs[j as int].a.factors);
            }
        }
        let rb = parse_lc(data, a.1, end, fs);
        let b = match rb {
            Ok(p) => p,
            Err(e) => {
                proof {
                    assert forall|cvs: Seq<ConstraintView>|
                        #[trigger] rows_at(data@, start as int, end as int, n as nat, fs as nat,
                        cvs) implies false by {
                        lemma_row_at(data@, start as int, end as int, cvs, j as int, pre_cur,
                            fs as nat);
                        lemma_lc_reads(data@, pre_cur + lc_bytes(cvs[j as int].a).len(),
                            cvs[j as int].b, fs as nat);
                    }
                }
                return Err(e);
            },
        };
        proof {
            assert forall|cvs: Seq<ConstraintView>|
                #[trigger] rows_at(data@, start as int, end as int, n as nat, fs as nat, cvs)
                implies (b.0@ =~= cvs[j as int].b && b.1 as int == pre_cur + lc_bytes(
                cvs[j as int].a,
            ).len() + lc_bytes(cvs[j as int].b).len()) by {
                lemma_row_at(data@, start as int, end as int, cvs, j as int, pre_cur, fs as nat);
                lemma_lc_reads(data@, pre_cur + lc_bytes(cvs[j as int].a).len(), cvs[j as int].b,
                    fs as nat);
                assert(b.0@.factors =~= cvs[j as int].b.factors);
            }
        }
        let rc = parse_lc(data, b.1, end, fs);
        let c = match rc {
            Ok(p) => p,
            Err(e) => {
                proof {
                    assert forall|cvs: Seq<ConstraintView>|
                        #[trigger] rows_at(data@, start as int, end as int, n as nat, fs as nat,
                        cvs) implies false by {
                        lemma_row_at(data@, start as int, end as int, cvs, j as int, pre_cur,
                            fs as nat);
                        lemma_lc_reads(data@, pre_cur + lc_bytes(cvs[j as int].a).len()
                            + lc_bytes(cvs[j as int].b).len(), cvs[j as int].c, fs as nat);
                    }
                }
                return Err(e);
            },
        };
        let next = c.1;
        out.push(Constraint { a: a.0, b: b.0, c: c.0 });
        proof {
            assert forall|cvs: Seq<ConstraintView>|
                #[trigger] rows_at(data@, start as int, end as int, n as nat, fs as nat, cvs)
                implies (next as int == start + constraints_bytes(
                cvs.subrange(0, j as int + 1),
            ).len() && Seq::new(out@.len(), |t: int| out@[t]@) =~= cvs.subrange(
                0,
                j as int + 1,
            )) by {
                lemma_row_at(data@, start as int, end as int, cvs, j as int, pre_cur, fs as nat);
                lemma_lc_reads(data@, pre_cur + lc_bytes(cvs[j as int].a).len() + lc_bytes(
                    cvs[j as int].b,
                ).len(), cvs[j as int].c, fs as nat);
                assert(c.0@.factors =~= cvs[j as int].c.factors);
                assert(out@[j as int]@ =~= cvs[j as int]);
                assert(Seq::new(out@.len(), |t: int| out@[t]@) =~= cvs.subrange(0, j as int + 1));
            }
        }
        cur = next;
        j = j + 1;
    }
    proof {
        assert forall|cvs: Seq<ConstraintView>|
            #[trigger] rows_at(data@, start as int, end as int, n as nat, fs as nat, cvs)
            implies (Seq::new(out@.len(), |t: int| out@[t]@) =~= cvs) by {
            assert(cvs.subrange(0, n as int) =~= cvs);
        }
    }
    Ok(out)
}

/// Shorthand for the three section body lengths.
pub open spec fn hlen(v: R1csView) -> int {
    header_body_bytes(v).len() as int
}

pub open spec fn clen(v: R1csView) -> int {
    constraints_bytes(v.constraints).len() as int
}

pub open spec fn llen(v: R1csView) -> int {
    labels_bytes(v.wire2label).len() as int
}

/// The position of the section scan after `s` sections of a canonical
/// emission have been walked.
pub open spec fn scan_pos(v: R1csView, s: int) -> int {
    if s == 0 {
        12
    } else if s == 1 {
        24 + hlen(v)
    } else if s == 2 {
        36 + hlen(v) + clen(v)
    } else {
        48 + hlen(v) + clen(v) + llen(v)
    }
}

/// Where every fixed chunk of a canonical emission stands.
#[verifier::rlimit(100)]
#[verifier::spinoff_prover]
proof fn lemma_r1cs_layout(v: R1csView)
    ensures
        r1cs_bytes(v).len() == 48 + hlen(v) + clen(v) + llen(v),
        r1cs_bytes(v).subrange(0, 4) == r1cs_magic(),
        r1cs_bytes(v).subrange(4, 8) == spec_u32_to_le_bytes(1u32),
        r1cs_bytes(v).subrange(8, 12) == spec_u32_to_le_bytes(3u32),
        r1cs_bytes(v).subrange(12, 16) == spec_u32_to_le_bytes(1u32),
        r1cs_bytes(v).subrange(16, 24) == spec_u64_to_le_bytes(hlen(v) as u64),
        r1cs_bytes(v).subrange(24, 24 + hlen(v)) == header_body_bytes(v),
        r1cs_bytes(v).subrange(24 + hlen(v), 28 + hlen(v)) == spec_u32_to_le_bytes(2u32),
        r1cs_bytes(v).subrange(28 + hlen(v), 36 + hlen(v)) == spec_u64_to_le_bytes(
            clen(v) as u64,
        ),
        r1cs_bytes(v).subrange(36 + hlen(v), 36 + hlen(v) + clen(v)) == constraints_bytes(
            v.constraints,
        ),
        r1cs_bytes(v).subrange(36 + hlen(v) + clen(v), 40 + hlen(v) + clen(v))
            == spec_u32_to_le_bytes(3u32),
        r1cs_bytes(v).subrange(40 + hlen(v) + clen(v), 48 + hlen(v) + clen(v))
            == spec_u64_to_le_bytes(llen(v) as u64),
        r1cs_bytes(v).subrange(48 + hlen(v) + clen(v), 48 + hlen(v) + clen(v) + llen(v))
            == labels_bytes(v.wire2label),
{
    vstd::bytes::lemma_auto_spec_u32_to_from_le_bytes();
    vstd::bytes::lemma_auto_spec_u64_to_from_le_bytes();
    let d = r1cs_bytes(v);
    let m = r1cs_magic();
    let c1 = spec_u32_to_le_bytes(1u32);
    let c3 = spec_u32_to_le_bytes(3u32);
    let t1 = spec_u32_to_le_bytes(1u32);
    let l1 = spec_u64_to_le_bytes(hlen(v) as u64);
    let hb = header_body_bytes(v);
    let t2 = spec_u32_to_le_bytes(2u32);
    let l2 = spec_u64_to_le_bytes(clen(v) as u64);
    let cb = constraints_bytes(v.constraints);
    let t3 = spec_u32_to_le_bytes(3u32);
    let l3 = spec_u64_to_le_bytes(llen(v) as u64);
    let lb = labels_bytes(v.wire2label);
    assert(d =~= m + c1 + c3 + (t1 + l1 + hb) + (t2 + l2 + cb) + (t3 + l3 + lb));
    assert(d.subrange(0, d.len() as int) =~= d);
    assert(d =~= Seq::empty() + m + (c1 + c3 + t1 + l1 + hb + t2 + l2 + cb + t3 + l3 + lb));
    crate::bytesutil::lemma_subrange_at(d, 0, Seq::empty(), m,
        c1 + c3 + t1 + l1 + hb + t2 + l2 + cb + t3 + l3 + lb);
    assert(d =~= m + c1 + (c3 + t1 + l1 + hb + t2 + l2 + cb + t3 + l3 + lb));
    crate::bytesutil::lemma_subrange_at(d, 0, m, c1,
        c3 + t1 + l1 + hb + t2 + l2 + cb + t3 + l3 + lb);
    assert(d =~= (m + c1) + c3 + (t1 + l1 + hb + t2 + l2 + cb + t3 + l3 + lb));
    crate::bytesutil::lemma_subrange_at(d, 0, m + c1, c3,
        t1 + l1 + hb + t2 + l2 + cb + t3 + l3 + lb);
    assert(d =~= (m + c1 + c3) + t1 + (l1 + hb + t2 + l2 + cb + t3 + l3 + lb));
    crate::bytesutil::lemma_subrange_at(d, 0, m + c1 + c3, t1,
        l1 + hb + t2 + l2 + cb + t3 + l3 + lb);
    assert(d =~= (m + c1 + c3 + t1) + l1 + (hb + t2 + l2 + cb + t3 + l3 + lb));
    crate::bytesutil::lemma_subrange_at(d, 0, m + c1 + c3 + t1, l1,
        hb + t2 + l2 + cb + t3 + l3 + lb);
    assert(d =~= (m + c1 + c3 + t1 + l1) + hb + (t2 + l2 + cb + t3 + l3 + lb));
    crate::bytesutil::lemma_subrange_at(d, 0, m + c1 + c3 + t1 + l1, hb,
        t2 + l2 + cb + t3 + l3 + lb);
    assert(d =~= (m + c1 + c3 + t1 + l1 + hb) + t2 + (l2 + cb + t3 + l3 + lb));
    crate::bytesutil::lemma_subrange_at(d, 0, m + c1 + c3 + t1 + l1 + hb, t2,
        l2 + cb + t3 + l3 + lb);
    assert(d =~= (m + c1 + c3 + t1 + l1 + hb + t2) + l2 + (cb + t3 + l3 + lb));
    crate::bytesutil::lemma_subrange_at(d, 0, m + c1 + c3 + t1 + l1 + hb + t2, l2,
        cb + t3 + l3 + lb);
    assert(d =~= (m + c1 + c3 + t1 + l1 + hb + t2 + l2) + cb + (t3 + l3 + lb));
    crate::bytesutil::lemma_subrange_at(d, 0, m + c1 + c3 + t1 + l1 + hb + t2 + l2, cb,
        t3 + l3 + lb);
    assert(d =~= (m + c1 + c3 + t1 + l1 + hb + t2 + l2 + cb) + t3 + (l3 + lb));
    crate::bytesutil::lemma_subrange_at(d, 0, m + c1 + c3 + t1 + l1 + hb + t2 + l2 + cb, t3,
        l3 + lb);
    assert(d =~= (m + c1 + c3 + t1 + l1 + hb + t2 + l2 + cb + t3) + l3 + lb);
    crate::bytesutil::lemma_subrange_at(d, 0, m + c1 + c3 + t1 + l1 + hb + t2 + l2 + cb + t3, l3,
        lb);
    assert(d =~= (m + c1 + c3 + t1 + l1 + hb + t2 + l2 + cb + t3 + l3) + lb + Seq::empty());
    crate::bytesutil::lemma_subrange_at(d, 0,
        m + c1 + c3 + t1 + l1 + hb + t2 + l2 + cb + t3 + l3, lb, Seq::empty());
}

/// The container hypothesis: `data` is the canonical emission of the
/// well-formed typed value `v`.
pub open spec fn is_emission_of(data: Seq<u8>, v: R1csView) -> bool {
    r1cs_wf_view(v) && data == r1cs_bytes(v)
}

/// Parses an `r1cs` container from its bytes.  Sections may come in any
/// order; the header and constraints sections are required, the
/// wire-to-label section defaults to the identity mapping.  A successful
/// parse is well formed, and parsing the canonical emission of any
/// well-formed container returns exactly that container.
pub fn parse_r1cs(data: &Vec<u8>) -> (r: Result<R1csFile, Error>)
    ensures
        r matches Ok(f) ==> f.wf(),
        forall|v: R1csView| #[trigger]
            is_emission_of(data@, v) ==> (r matches Ok(f) && f@ =~= v),
        r == Err::<R1csFile, Error>(Error::BadMagic) <==> (data@.len() < 4 || data@.subrange(
            0,
            4,
        ) != r1cs_magic()),
        r == Err::<R1csFile, Error>(Error::BadVersion) <==> (data@.len() >= 12
            && data@.subrange(0, 4) == r1cs_magic() && spec_u32_from_le_bytes(
            data@.subrange(4, 8),
        ) != 1),
        r matches Err(e) ==> (e == Error::BadMagic || e == Error::BadVersion || e
            == Error::TruncatedSection || e == Error::DuplicateSection || e
            == Error::SectionMissing || e == Error::ValueTooLarge),
        r matches Ok(f) ==> exists|hs: int|
            {
                &&& 0 <= hs
                &&& hs + 32 + f.field_size as int <= data@.len()
                &&& f.field_size == spec_u32_from_le_bytes(#[trigger] data@.subrange(hs, hs + 4))
                &&& f.prime@ == data@.subrange(hs + 4, hs + 4 + f.field_size as int)
                &&& f.n_wires == spec_u32_from_le_bytes(
                    data@.subrange(hs + 4 + f.field_size as int, hs + 8 + f.field_size as int),
                )
                &&& f.n_pub_out == spec_u32_from_le_bytes(
                    data@.subrange(hs + 8 + f.field_size as int, hs + 12 + f.field_size as int),
                )
                &&& f.n_pub_in == spec_u32_from_le_bytes(
                    data@.subrange(hs + 12 + f.field_size as int, hs + 16 + f.field_size as int),
                )
                &&& f.n_prv_in == spec_u32_from_le_bytes(
                    data@.subrange(hs + 16 + f.field_size as int, hs + 20 + f.field_size as int),
                )
                &&& f.n_labels == spec_u64_from_le_bytes(
                    data@.subrange(hs + 20 + f.field_size as int, hs + 28 + f.field_size as int),
                )
                &&& f.n_constraints == spec_u32_from_le_bytes(
                    data@.subrange(hs + 28 + f.field_size as int, hs + 32 + f.field_size as int),
                )
            },
        r matches Ok(f) ==> ((exists|ls: int|
            {
                &&& 0 <= ls
                &&& ls + 8 * f.n_wires as int <= data@.len()
                &&& #[trigger] data@.subrange(ls, ls + 8 * f.n_wires as int) == data@.subrange(
                    ls,
                    ls + 8 * f.n_wires as int,
                )
                &&& forall|k: int|
                    0 <= k < f.n_wires as int ==> #[trigger] f.wire2label@[k]
                        == spec_u64_from_le_bytes(data@.subrange(ls + 8 * k, ls + 8 * k + 8))
            }) || (forall|k: int|
            0 <= k < f.wire2label@.len() ==> #[trigger] f.wire2label@[k] == k)),
{
    let n = data.len();
    if n < 4 || !(data[0] == 0x72 && data[1] == 0x31 && data[2] == 0x63 && data[3] == 0x73) {
        proof {
            if n >= 4 {
                assert(data@.subrange(0, 4)[0] == data@[0] && data@.subrange(0, 4)[1]
                    == data@[1] && data@.subrange(0, 4)[2] == data@[2] && data@.subrange(
                    0,
                    4,
                )[3] == data@[3]);
                assert(data@.subrange(0, 4) != r1cs_magic());
            }
            assert forall|v: R1csView| #[trigger] is_emission_of(data@, v) implies false by {
                lemma_r1cs_layout(v);
                assert(data@[0] == 0x72 && data@[1] == 0x31 && data@[2] == 0x63 && data@[3]
                    == 0x73);
            }
        }
        return Err(Error::BadMagic);
    }
    proof {
        assert(data@.subrange(0, 4) =~= r1cs_magic());
    }
    if n < 12 {
        proof {
            assert forall|v: R1csView| #[trigger] is_emission_of(data@, v) implies false by {
                lemma_r1cs_layout(v);
            }
        }
        return Err(Error::TruncatedSection);
    }
    let version = read_u32_le(data, 4);
    proof {
        assert(data@.subrange(0, 4) =~= r1cs_magic());
    }
    if version != 1 {
        proof {
            vstd::bytes::lemma_auto_spec_u32_to_from_le_bytes();
            assert forall|v: R1csView| #[trigger] is_emission_of(data@, v) implies false by {
                lemma_r1cs_layout(v);
            }
        }
        return Err(Error::BadVersion);
    }
    let n_sections = read_u32_le(data, 8);

    let mut tps: Vec<u32> = Vec::new();
    let mut lens: Vec<usize> = Vec::new();
    let mut starts: Vec<usize> = Vec::new();
    let mut pos: usize = 12;
    let mut s: u32 = 0;
    proof {
        vstd::bytes::lemma_auto_spec_u32_to_from_le_bytes();
        vstd::bytes::lemma_auto_spec_u64_to_from_le_bytes();
        assert forall|v: R1csView| #[trigger] is_emission_of(data@, v) implies n_sections == 3
            by {
            lemma_r1cs_layout(v);
        }
    }
    while s < n_sections
        invariant
            n == data@.len(),
            data@.subrange(0, 4) == r1cs_magic(),
            spec_u32_from_le_bytes(data@.subrange(4, 8)) == 1,
            12 <= pos <= n,
            s <= n_sections,
            tps@.len() == s as nat,
            lens@.len() == s as nat,
            starts@.len() == s as nat,
            forall|t: int|
                0 <= t < s as int ==> (#[trigger] starts@[t]) + lens@[t] <= n,
            n_sections == spec_u32_from_le_bytes(data@.subrange(8, 12)),
            forall|v: R1csView| #[trigger]
                is_emission_of(data@, v) ==> {
                    &&& n_sections == 3
                    &&& s <= 3
                    &&& pos as int == scan_pos(v, s as int)
                    &&& (s as int >= 1 ==> tps@[0] == 1 && lens@[0] as int == hlen(v)
                        && starts@[0] == 24)
                    &&& (s as int >= 2 ==> tps@[1] == 2 && lens@[1] as int == clen(v)
                        && starts@[1] as int == 36 + hlen(v))
                    &&& (s as int >= 3 ==> tps@[2] == 3 && lens@[2] as int == llen(v)
                        && starts@[2] as int == 48 + hlen(v) + clen(v))
                },
        decreases n_sections - s,
    {
        proof {
            vstd::bytes::lemma_auto_spec_u32_to_from_le_bytes();
            vstd::bytes::lemma_auto_spec_u64_to_from_le_bytes();
        }
        if n - pos < 12 {
            proof {
                assert forall|v: R1csView| #[trigger] is_emission_of(data@, v) implies false by {
                    lemma_r1cs_layout(v);
                }
            }
            return Err(Error::TruncatedSection);
        }
        let t = read_u32_le(data, pos);
        let l = read_u64_le(data, pos + 4);
        if l > (usize::MAX as u64) {
            proof {
                assert forall|v: R1csView| #[trigger] is_emission_of(data@, v) implies false by {
                    lemma_r1cs_layout(v);
                }
            }
            return Err(Error::ValueTooLarge);
        }
        let lu = l as usize;
        if lu > n - (pos + 12) {
            proof {
                assert forall|v: R1csView| #[trigger] is_emission_of(data@, v) implies false by {
                    lemma_r1cs_layout(v);
                }
            }
            return Err(Error::TruncatedSection);
        }
        tps.push(t);
        lens.push(lu);
        starts.push(pos + 12);
        proof {
            assert forall|v: R1csView| #[trigger] is_emission_of(data@, v) implies {
                &&& (s as int + 1 >= 1 ==> tps@[0] == 1 && lens@[0] as int == hlen(v)
                    && starts@[0] == 24)
                &&& (s as int + 1 >= 2 ==> tps@[1] == 2 && lens@[1] as int == clen(v)
                    && starts@[1] as int == 36 + hlen(v))
                &&& (s as int + 1 >= 3 ==> tps@[2] == 3 && lens@[2] as int == llen(v)
                    && starts@[2] as int == 48 + hlen(v) + clen(v))
                &&& (pos + 12 + lu) as int == scan_pos(v, s as int + 1)
            } by {
                lemma_r1cs_layout(v);
            }
        }
        pos = pos + 12 + lu;
        s = s + 1;
    }

    let n_found = tps.len();
    let mut h_idx: Option<usize> = None;
    let mut c_idx: Option<usize> = None;
    let mut l_idx: Option<usize> = None;
    let mut idx: usize = 0;
    while idx < n_found
        invariant
            n == data@.len(),
            n >= 12,
            data@.subrange(0, 4) == r1cs_magic(),
            spec_u32_from_le_bytes(data@.subrange(4, 8)) == 1,
            n_found == tps@.len(),
            lens@.len() == n_found,
            starts@.len() == n_found,
            idx <= n_found,
            forall|t: int|
                0 <= t < n_found as int ==> (#[trigger] starts@[t]) + lens@[t] <= n,
            h_idx matches Some(i) ==> i < n_found && tps@[i as int] == 1,
            c_idx matches Some(i) ==> i < n_found && tps@[i as int] == 2,
            l_idx matches Some(i) ==> i < n_found && tps@[i as int] == 3,
            forall|v: R1csView| #[trigger]
                is_emission_of(data@, v) ==> {
                    &&& n_found == 3
                    &&& tps@[0] == 1 && lens@[0] as int == hlen(v) && starts@[0] == 24
                    &&& tps@[1] == 2 && lens@[1] as int == clen(v) && starts@[1] as int == 36
                        + hlen(v)
                    &&& tps@[2] == 3 && lens@[2] as int == llen(v) && starts@[2] as int == 48
                        + hlen(v) + clen(v)
                    &&& h_idx == if idx >= 1 { Some(0usize) } else { None::<usize> }
                    &&& c_idx == if idx >= 2 { Some(1usize) } else { None::<usize> }
                    &&& l_idx == if idx >= 3 { Some(2usize) } else { None::<usize> }
                },
        decreases n_found - idx,
    {
        let t = tps[idx];
        if t == 1 {
            if h_idx.is_some() {
                proof {
                    assert forall|v: R1csView| #[trigger] is_emission_of(data@, v) implies false
                        by {}
                }
                return Err(Error::DuplicateSection);
            }
            h_idx = Some(idx);
        } else if t == 2 {
            if c_idx.is_some() {
                proof {
                    assert forall|v: R1csView| #[trigger] is_emission_of(data@, v) implies false
                        by {}
                }
                return Err(Error::DuplicateSection);
            }
            c_idx = Some(idx);
        } else if t == 3 {
            if l_idx.is_some() {
                proof {
                    assert forall|v: R1csView| #[trigger] is_emission_of(data@, v) implies false
                        by {}
                }
                return Err(Error::DuplicateSection);
            }
            l_idx = Some(idx);
        }
        idx = idx + 1;
    }

    let h_at = match h_idx {
        Some(i) => i,
        None => {
            proof {
                assert forall|v: R1csView| #[trigger] is_emission_of(data@, v) implies false by {}
            }
            return Err(Error::SectionMissing);
        },
    };
    let header = match parse_header(data, starts[h_at], starts[h_at] + lens[h_at]) {
        Ok(h) => h,
        Err(e) => {
            proof {
                vstd::bytes::lemma_auto_spec_u32_to_from_le_bytes();
                assert forall|v: R1csView| #[trigger] is_emission_of(data@, v) implies false by {
                    lemma_r1cs_layout(v);
                    lemma_header_reads(data@, 24, v);
                }
            }
            return Err(e);
        },
    };
    proof {
        assert forall|v: R1csView| #[trigger] is_emission_of(data@, v) implies {
            &&& header.field_size == v.field_size
            &&& header.prime@ == v.prime
            &&& header.n_wires == v.n_wires
            &&& header.n_pub_out == v.n_pub_out
            &&& header.n_pub_in == v.n_pub_in
            &&& header.n_prv_in == v.n_prv_in
            &&& header.n_labels == v.n_labels
            &&& header.n_constraints == v.n_constraints
        } by {
            lemma_r1cs_layout(v);
            lemma_header_reads(data@, 24, v);
        }
    }
    let fs = header.field_size as usize;

    let c_at = match c_idx {
        Some(i) => i,
        None => {
            proof {
                assert forall|v: R1csView| #[trigger] is_emission_of(data@, v) implies false by {}
            }
            return Err(Error::SectionMissing);
        },
    };
    let constraints = match parse_constraints(
        data,
        starts[c_at],
        starts[c_at] + lens[c_at],
        header.n_constraints,
        fs,
    ) {
        Ok(cs) => cs,
        Err(e) => {
            proof {
                assert forall|v: R1csView| #[trigger] is_emission_of(data@, v) implies false by {
                    lemma_r1cs_layout(v);
                    assert(rows_at(data@, 36 + hlen(v), 36 + hlen(v) + clen(v),
                        v.n_constraints as nat, v.field_size as nat, v.constraints));
                }
            }
            return Err(e);
        },
    };
    proof {
        assert forall|v: R1csView| #[trigger] is_emission_of(data@, v) implies Seq::new(
            constraints@.len(),
            |j: int| constraints@[j]@,
        ) =~= v.constraints by {
            lemma_r1cs_layout(v);
            assert(rows_at(data@, 36 + hlen(v), 36 + hlen(v) + clen(v), v.n_constraints as nat,
                v.field_size as nat, v.constraints));
        }
    }

    let mut labels_from_section = false;
    let ghost mut lab_base: int = 0;
    let wire2label: Vec<u64> = match l_idx {
        Some(i) => {
            match parse_labels(data, starts[i], starts[i] + lens[i], header.n_wires) {
                Ok(ls) => {
                    labels_from_section = true;
                    proof {
                        lab_base = starts[i as int] as int;
                    }
                    ls
                },
                Err(e) => {
                    proof {
                        assert forall|v: R1csView| #[trigger] is_emission_of(data@, v)
                            implies false by {
                            lemma_r1cs_layout(v);
                            lemma_labels_bytes_len(v.wire2label);
                        }
                    }
                    return Err(e);
                },
            }
        },
        None => {
            let mut ls: Vec<u64> = Vec::new();
            let mut w: u32 = 0;
            while w < header.n_wires
                invariant
                    data@.subrange(0, 4) == r1cs_magic(),
                    spec_u32_from_le_bytes(data@.subrange(4, 8)) == 1,
                    w <= header.n_wires,
                    ls@.len() == w as nat,
                    forall|k: int| 0 <= k < w as int ==> #[trigger] ls@[k] == k,
                decreases header.n_wires - w,
            {
                ls.push(w as u64);
                w = w + 1;
            }
            ls
        },
    };
    proof {
        assert forall|v: R1csView| #[trigger] is_emission_of(data@, v) implies wire2label@
            =~= v.wire2label by {
            lemma_r1cs_layout(v);
            lemma_labels_reads(data@, 48 + hlen(v) + clen(v), v.wire2label);
        }
    }

    let f = R1csFile {
        field_size: header.field_size,
        prime: header.prime,
        n_wires: header.n_wires,
        n_pub_out: header.n_pub_out,
        n_pub_in: header.n_pub_in,
        n_prv_in: header.n_prv_in,
        n_labels: header.n_labels,
        n_constraints: header.n_constraints,
        constraints,
        wire2label,
    };
    proof {
        assert forall|v: R1csView| #[trigger] is_emission_of(data@, v) implies f@ =~= v by {}
        if labels_from_section {
            assert(0 <= lab_base && lab_base + 8 * f.n_wires as int <= data@.len());
            assert(forall|k: int|
                0 <= k < f.n_wires as int ==> #[trigger] f.wire2label@[k]
                    == spec_u64_from_le_bytes(
                    data@.subrange(lab_base + 8 * k, lab_base + 8 * k + 8),
                ));
            assert(data@.subrange(lab_base, lab_base + 8 * f.n_wires as int) == data@.subrange(
                lab_base,
                lab_base + 8 * f.n_wires as int,
            ));
        } else {
            assert(forall|k: int|
                0 <= k < f.wire2label@.len() ==> #[trigger] f.wire2label@[k] == k);
        }
    }
    Ok(f)
}

} // verus!
