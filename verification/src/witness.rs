//! The `wtns` binary container (snarkjs version 2).
//!
//! The container is: magic `"wtns"`, a 4-byte version (must be 2), a 4-byte
//! section count, then sections, each prefixed by a 4-byte type and an
//! 8-byte little-endian length.  The header section (type 1) carries the
//! field byte width `n8`, the prime, and the witness count; the data section
//! (type 2) is exactly `n8 × count` bytes, each `n8`-byte chunk one
//! little-endian field element.  Unknown sections are skipped.
//!
//! As with the `r1cs` codec, parsing and emission are specified against the
//! byte-level model below, and emission followed by parsing provably returns
//! the same typed container.

use crate::bytesutil::{read_u32_le, read_u64_le, take_bytes};
use crate::errors::Error;
use crate::field::Fe;
use vstd::bytes::{
    spec_u32_from_le_bytes, spec_u32_to_le_bytes, spec_u64_from_le_bytes, spec_u64_to_le_bytes,
};
use vstd::prelude::*;

verus! {

/// The typed content of a `wtns` container.
#[verifier::ext_equal]
pub struct WtnsView {
    pub prime: Seq<u8>,
    pub n_witness: u32,
    pub assignments: Seq<Seq<u8>>,
}

/// A parsed `wtns` container: the field prime, the declared element count,
/// and one little-endian value per wire, in wire order.
pub struct WitnessFile {
    pub prime: Vec<u8>,
    pub n_witness: u32,
    pub assignments: Vec<Vec<u8>>,
}

impl View for WitnessFile {
    type V = WtnsView;

    open spec fn view(&self) -> WtnsView {
        WtnsView {
            prime: self.prime@,
            n_witness: self.n_witness,
            assignments: Seq::new(self.assignments@.len(), |i: int| self.assignments@[i]@),
        }
    }
}

/// The bytes of the value cells, in wire order.
pub open spec fn cells_bytes(s: Seq<Seq<u8>>) -> Seq<u8>
    decreases s.len(),
{
    if s.len() == 0 {
        Seq::empty()
    } else {
        cells_bytes(s.drop_last()) + s.last()
    }
}

/// The body of the witness header section.
pub open spec fn wtns_header_body(v: WtnsView) -> Seq<u8> {
    spec_u32_to_le_bytes(v.prime.len() as u32) + v.prime + spec_u32_to_le_bytes(v.n_witness)
}

/// The magic bytes `"wtns"`.
pub open spec fn wtns_magic() -> Seq<u8> {
    seq![0x77u8, 0x74u8, 0x6eu8, 0x73u8]
}

/// The canonical emission of a typed container: magic, version 2, header
/// section then data section.
pub open spec fn wtns_bytes(v: WtnsView) -> Seq<u8> {
    wtns_magic() + spec_u32_to_le_bytes(2u32) + spec_u32_to_le_bytes(2u32)
        + crate::r1cs::section_bytes(1u32, wtns_header_body(v)) + crate::r1cs::section_bytes(
        2u32,
        cells_bytes(v.assignments),
    )
}

/// Well-formedness: the declared count matches the cells, every cell has the
/// prime's width, and the width fits its 4-byte field.
pub open spec fn wtns_wf_view(v: WtnsView) -> bool {
    &&& v.prime.len() <= 0xffffffffnat
    &&& v.assignments.len() == v.n_witness as nat
    &&& forall|i: int|
        0 <= i < v.assignments.len() ==> (#[trigger] v.assignments[i]).len() == v.prime.len()
}

impl WitnessFile {
    /// Well-formedness of the parsed container.
    pub open spec fn wf(&self) -> bool {
        wtns_wf_view(self@)
    }

    /// The number of wires in the witness.
    pub fn n_wires(&self) -> (r: u32)
        ensures
            r == self.n_witness,
    {
        self.n_witness
    }

    /// The witness values as field elements, in wire order; values at or
    /// above the field order are reduced.
    pub fn to_field_elements(&self) -> (r: Vec<Fe>)
        ensures
            r@.len() == self.assignments@.len(),
            forall|i: int|
                0 <= i < r@.len() ==> (#[trigger] r@[i]).wf() && r@[i].val()
                    == crate::field::le_val(self.assignments@[i]@) % crate::field::fr_order(),
    {
        let n = self.assignments.len();
        let mut out: Vec<Fe> = Vec::new();
        let mut i: usize = 0;
        while i < n
            invariant
                n == self.assignments@.len(),
                i <= n,
                out@.len() == i as nat,
                forall|j: int|
                    0 <= j < i as int ==> (#[trigger] out@[j]).wf() && out@[j].val()
                        == crate::field::le_val(self.assignments@[j]@) % crate::field::fr_order(),
            decreases n - i,
        {
            let fe = crate::field::fe_reduce(&self.assignments[i]);
            out.push(fe);
            i = i + 1;
        }
        out
    }
}

pub proof fn lemma_cells_bytes_concat(a: Seq<Seq<u8>>, b: Seq<Seq<u8>>)
    ensures
        cells_bytes(a + b) == cells_bytes(a) + cells_bytes(b),
    decreases b.len(),
{
    if b.len() == 0 {
        assert(a + b =~= a);
        assert(cells_bytes(a) + cells_bytes(b) =~= cells_bytes(a));
    } else {
        lemma_cells_bytes_concat(a, b.drop_last());
        assert((a + b).drop_last() =~= a + b.drop_last());
        assert((a + b).last() == b.last());
        assert(cells_bytes(a) + (cells_bytes(b.drop_last()) + b.last()) =~= (cells_bytes(a)
            + cells_bytes(b.drop_last())) + b.last());
    }
}

pub proof fn lemma_cells_bytes_len(s: Seq<Seq<u8>>, w: nat)
    requires
        forall|i: int| 0 <= i < s.len() ==> (#[trigger] s[i]).len() == w,
    ensures
        cells_bytes(s).len() == s.len() * w,
    decreases s.len(),
{
    if s.len() == 0 {
    } else {
        lemma_cells_bytes_len(s.drop_last(), w);
        assert((s.len() - 1) * w + w == s.len() * w) by (nonlinear_arith);
    }
}

/// If the cell bytes stand at `base`, each cell reads back from its slot.
pub proof fn lemma_cells_reads(data: Seq<u8>, base: int, s: Seq<Seq<u8>>, w: nat)
    requires
        forall|i: int| 0 <= i < s.len() ==> (#[trigger] s[i]).len() == w,
        0 <= base,
        base + cells_bytes(s).len() <= data.len(),
        data.subrange(base, base + cells_bytes(s).len()) == cells_bytes(s),
    ensures
        cells_bytes(s).len() == s.len() * w,
        forall|i: int|
            0 <= i < s.len() ==> data.subrange(base + i * w, base + i * w + w) == #[trigger] s[i],
{
    lemma_cells_bytes_len(s, w);
    assert forall|i: int| 0 <= i < s.len() implies data.subrange(
        base + i * w,
        base + i * w + w,
    ) == s[i] by {
        let pre = s.subrange(0, i);
        let mid = seq![s[i]];
        let post = s.subrange(i + 1, s.len() as int);
        assert(s =~= (pre + mid) + post);
        lemma_cells_bytes_concat(pre + mid, post);
        lemma_cells_bytes_concat(pre, mid);
        assert(mid.drop_last() =~= Seq::<Seq<u8>>::empty());
        assert(cells_bytes(mid) == cells_bytes(mid.drop_last()) + mid.last());
        assert(cells_bytes(Seq::<Seq<u8>>::empty()) == Seq::<u8>::empty());
        assert(cells_bytes(mid) =~= s[i]);
        lemma_cells_bytes_len(pre, w);
        lemma_cells_bytes_len(post, w);
        assert(0 <= i * w && i * w + w <= s.len() * w) by (nonlinear_arith)
            requires
                0 <= i < s.len(),
        ;
        assert(cells_bytes(s) == cells_bytes(pre) + cells_bytes(mid) + cells_bytes(post));
        crate::bytesutil::lemma_subrange_at(data, base, cells_bytes(pre), s[i],
            cells_bytes(post));
    }
}

/// Rebuilds the canonical byte layout of the container.
pub fn emit_wtns(f: &WitnessFile) -> (r: Vec<u8>)
    requires
        f.wf(),
        wtns_bytes(f@).len() <= usize::MAX as nat,
    ensures
        r@ == wtns_bytes(f@),
{
    let mut header: Vec<u8> = Vec::new();
    crate::bytesutil::push_u32_le(&mut header, f.prime.len() as u32);
    crate::bytesutil::push_bytes(&mut header, &f.prime);
    crate::bytesutil::push_u32_le(&mut header, f.n_witness);
    proof {
        assert(header@ =~= wtns_header_body(f@));
    }

    let mut body: Vec<u8> = Vec::new();
    let n = f.assignments.len();
    let mut i: usize = 0;
    while i < n
        invariant
            n == f.assignments@.len(),
            i <= n,
            body@ == cells_bytes(Seq::new(i as nat, |j: int| f.assignments@[j]@)),
        decreases n - i,
    {
        let ghost pre = Seq::new(i as nat, |j: int| f.assignments@[j]@);
        crate::bytesutil::push_bytes(&mut body, &f.assignments[i]);
        proof {
            let cur = Seq::new(i as nat + 1, |j: int| f.assignments@[j]@);
            assert(cur.drop_last() =~= pre);
            assert(cur.last() == f.assignments@[i as int]@);
            assert(body@ =~= cells_bytes(cur));
        }
        i = i + 1;
    }
    proof {
        assert(Seq::new(n as nat, |j: int| f.assignments@[j]@) =~= f@.assignments);
    }

    let mut out: Vec<u8> = Vec::new();
    out.push(0x77u8);
    out.push(0x74u8);
    out.push(0x6eu8);
    out.push(0x73u8);
    proof {
        assert(out@ =~= wtns_magic());
        lemma_wtns_bytes_len(f@);
    }
    crate::bytesutil::push_u32_le(&mut out, 2u32);
    crate::bytesutil::push_u32_le(&mut out, 2u32);
    crate::bytesutil::push_u32_le(&mut out, 1u32);
    crate::bytesutil::push_u64_le(&mut out, header.len() as u64);
    crate::bytesutil::push_bytes(&mut out, &header);
    crate::bytesutil::push_u32_le(&mut out, 2u32);
    crate::bytesutil::push_u64_le(&mut out, body.len() as u64);
    crate::bytesutil::push_bytes(&mut out, &body);
    proof {
        assert(out@ =~= wtns_bytes(f@));
    }
    out
}

proof fn lemma_wtns_bytes_len(v: WtnsView)
    ensures
        wtns_bytes(v).len() == 36 + wtns_header_body(v).len() + cells_bytes(v.assignments).len(),
        wtns_header_body(v).len() == 8 + v.prime.len(),
{
    vstd::bytes::lemma_auto_spec_u32_to_from_le_bytes();
    vstd::bytes::lemma_auto_spec_u64_to_from_le_bytes();
}

/// Shorthand for the two section body lengths.
pub open spec fn whlen(v: WtnsView) -> int {
    wtns_header_body(v).len() as int
}

pub open spec fn wdlen(v: WtnsView) -> int {
    cells_bytes(v.assignments).len() as int
}

/// The position of the section scan after `s` sections of a canonical
/// emission have been walked.
pub open spec fn wtns_scan_pos(v: WtnsView, s: int) -> int {
    if s == 0 {
        12
    } else if s == 1 {
        24 + whlen(v)
    } else {
        36 + whlen(v) + wdlen(v)
    }
}

/// Where every fixed chunk of a canonical emission stands.
#[verifier::rlimit(100)]
#[verifier::spinoff_prover]
proof fn lemma_wtns_layout(v: WtnsView)
    ensures
        wtns_bytes(v).len() == 36 + whlen(v) + wdlen(v),
        wtns_bytes(v).subrange(0, 4) == wtns_magic(),
        wtns_bytes(v).subrange(4, 8) == spec_u32_to_le_bytes(2u32),
        wtns_bytes(v).subrange(8, 12) == spec_u32_to_le_bytes(2u32),
        wtns_bytes(v).subrange(12, 16) == spec_u32_to_le_bytes(1u32),
        wtns_bytes(v).subrange(16, 24) == spec_u64_to_le_bytes(whlen(v) as u64),
        wtns_bytes(v).subrange(24, 24 + whlen(v)) == wtns_header_body(v),
        wtns_bytes(v).subrange(24 + whlen(v), 28 + whlen(v)) == spec_u32_to_le_bytes(2u32),
        wtns_bytes(v).subrange(28 + whlen(v), 36 + whlen(v)) == spec_u64_to_le_bytes(
            wdlen(v) as u64,
        ),
        wtns_bytes(v).subrange(36 + whlen(v), 36 + whlen(v) + wdlen(v)) == cells_bytes(
            v.assignments,
        ),
{
    vstd::bytes::lemma_auto_spec_u32_to_from_le_bytes();
    vstd::bytes::lemma_auto_spec_u64_to_from_le_bytes();
    let d = wtns_bytes(v);
    let m = wtns_magic();
    let ver = spec_u32_to_le_bytes(2u32);
    let nsec = spec_u32_to_le_bytes(2u32);
    let t1 = spec_u32_to_le_bytes(1u32);
    let l1 = spec_u64_to_le_bytes(whlen(v) as u64);
    let hb = wtns_header_body(v);
    let t2 = spec_u32_to_le_bytes(2u32);
    let l2 = spec_u64_to_le_bytes(wdlen(v) as u64);
    let db = cells_bytes(v.assignments);
    assert(d =~= m + ver + nsec + (t1 + l1 + hb) + (t2 + l2 + db));
    assert(d.subrange(0, d.len() as int) =~= d);
    assert(d =~= Seq::empty() + m + (ver + nsec + t1 + l1 + hb + t2 + l2 + db));
    crate::bytesutil::lemma_subrange_at(d, 0, Seq::empty(), m,
        ver + nsec + t1 + l1 + hb + t2 + l2 + db);
    assert(d =~= m + ver + (nsec + t1 + l1 + hb + t2 + l2 + db));
    crate::bytesutil::lemma_subrange_at(d, 0, m, ver, nsec + t1 + l1 + hb + t2 + l2 + db);
    assert(d =~= (m + ver) + nsec + (t1 + l1 + hb + t2 + l2 + db));
    crate::bytesutil::lemma_subrange_at(d, 0, m + ver, nsec, t1 + l1 + hb + t2 + l2 + db);
    assert(d =~= (m + ver + nsec) + t1 + (l1 + hb + t2 + l2 + db));
    crate::bytesutil::lemma_subrange_at(d, 0, m + ver + nsec, t1, l1 + hb + t2 + l2 + db);
    assert(d =~= (m + ver + nsec + t1) + l1 + (hb + t2 + l2 + db));
    crate::bytesutil::lemma_subrange_at(d, 0, m + ver + nsec + t1, l1, hb + t2 + l2 + db);
    assert(d =~= (m + ver + nsec + t1 + l1) + hb + (t2 + l2 + db));
    crate::bytesutil::lemma_subrange_at(d, 0, m + ver + nsec + t1 + l1, hb, t2 + l2 + db);
    assert(d =~= (m + ver + nsec + t1 + l1 + hb) + t2 + (l2 + db));
    crate::bytesutil::lemma_subrange_at(d, 0, m + ver + nsec + t1 + l1 + hb, t2, l2 + db);
    assert(d =~= (m + ver + nsec + t1 + l1 + hb + t2) + l2 + db);
    crate::bytesutil::lemma_subrange_at(d, 0, m + ver + nsec + t1 + l1 + hb + t2, l2, db);
    assert(d =~= (m + ver + nsec + t1 + l1 + hb + t2 + l2) + db + Seq::empty());
    crate::bytesutil::lemma_subrange_at(d, 0, m + ver + nsec + t1 + l1 + hb + t2 + l2, db,
        Seq::empty());
}

/// The header body reads back the fields that were written into it.
proof fn lemma_wtns_header_reads(data: Seq<u8>, base: int, v: WtnsView)
    requires
        v.prime.len() <= 0xffffffffnat,
        0 <= base,
        base + wtns_header_body(v).len() <= data.len(),
        data.subrange(base, base + wtns_header_body(v).len()) == wtns_header_body(v),
    ensures
        wtns_header_body(v).len() == 8 + v.prime.len(),
        spec_u32_from_le_bytes(data.subrange(base, base + 4)) as nat == v.prime.len(),
        data.subrange(base + 4, base + 4 + v.prime.len() as int) == v.prime,
        spec_u32_from_le_bytes(
            data.subrange(base + 4 + v.prime.len() as int, base + 8 + v.prime.len() as int),
        ) == v.n_witness,
{
    vstd::bytes::lemma_auto_spec_u32_to_from_le_bytes();
    let hb = wtns_header_body(v);
    let c0 = spec_u32_to_le_bytes(v.prime.len() as u32);
    let c2 = spec_u32_to_le_bytes(v.n_witness);
    assert(hb =~= Seq::empty() + c0 + (v.prime + c2));
    crate::bytesutil::lemma_subrange_at(data, base, Seq::empty(), c0, v.prime + c2);
    assert(hb =~= c0 + v.prime + c2);
    crate::bytesutil::lemma_subrange_at(data, base, c0, v.prime, c2);
    assert(hb =~= (c0 + v.prime) + c2 + Seq::empty());
    crate::bytesutil::lemma_subrange_at(data, base, c0 + v.prime, c2, Seq::empty());
}

/// Where a parsed container's fields were read: the header section body at
/// `hs` carries the width, the prime and the count, and the value cells
/// stand consecutively at `ds`.
pub open spec fn wtns_reads_at(data: Seq<u8>, v: WtnsView, hs: int, ds: int) -> bool {
    &&& 0 <= hs
    &&& hs + 8 + v.prime.len() <= data.len()
    &&& spec_u32_from_le_bytes(data.subrange(hs, hs + 4)) as nat == v.prime.len()
    &&& v.prime == data.subrange(hs + 4, hs + 4 + v.prime.len() as int)
    &&& v.n_witness == spec_u32_from_le_bytes(
        data.subrange(hs + 4 + v.prime.len() as int, hs + 8 + v.prime.len() as int),
    )
    &&& 0 <= ds
    &&& ds + (v.n_witness as int) * (v.prime.len() as int) <= data.len()
    &&& forall|k: int|
        0 <= k < v.n_witness as int ==> #[trigger] v.assignments[k] == data.subrange(
            ds + k * (v.prime.len() as int),
            ds + k * (v.prime.len() as int) + v.prime.len() as int,
        )
}

/// The container hypothesis: `data` is the canonical emission of the
/// well-formed typed value `v`.
pub open spec fn is_wtns_emission_of(data: Seq<u8>, v: WtnsView) -> bool {
    wtns_wf_view(v) && data == wtns_bytes(v)
}

/// Parses a `wtns` container from its bytes.  Sections may come in any
/// order and unknown section types are skipped.  A successful parse is well
/// formed, and parsing the canonical emission of any well-formed container
/// returns exactly that container.
pub fn parse_wtns(data: &Vec<u8>) -> (r: Result<WitnessFile, Error>)
    ensures
        r matches Ok(f) ==> f.wf(),
        forall|v: WtnsView| #[trigger]
            is_wtns_emission_of(data@, v) ==> (r matches Ok(f) && f@ =~= v),
        r == Err::<WitnessFile, Error>(Error::BadMagic) <==> (data@.len() < 4
            || data@.subrange(0, 4) != wtns_magic()),
        r == Err::<WitnessFile, Error>(Error::BadVersion) <==> (data@.len() >= 12
            && data@.subrange(0, 4) == wtns_magic() && spec_u32_from_le_bytes(
            data@.subrange(4, 8),
        ) != 2),
        r matches Err(e) ==> (e == Error::BadMagic || e == Error::BadVersion || e
            == Error::TruncatedSection || e == Error::SectionMissing || e
            == Error::SizeMismatch || e == Error::ValueTooLarge),
        r matches Ok(f) ==> exists|hs: int, ds: int| #[trigger] wtns_reads_at(data@, f@, hs, ds),
{
    let n = data.len();
    if n < 4 || !(data[0] == 0x77 && data[1] == 0x74 && data[2] == 0x6e && data[3] == 0x73) {
        proof {
            if n >= 4 {
                assert(data@.subrange(0, 4)[0] == data@[0] && data@.subrange(0, 4)[1]
                    == data@[1] && data@.subrange(0, 4)[2] == data@[2] && data@.subrange(
                    0,
                    4,
                )[3] == data@[3]);
                assert(data@.subrange(0, 4) != wtns_magic());
            }
            assert forall|v: WtnsView| #[trigger] is_wtns_emission_of(data@, v) implies false by {
                lemma_wtns_layout(v);
                assert(data@[0] == 0x77 && data@[1] == 0x74 && data@[2] == 0x6e && data@[3]
                    == 0x73);
            }
        }
        return Err(Error::BadMagic);
    }
    proof {
        assert(data@.subrange(0, 4) =~= wtns_magic());
    }
    if n < 12 {
        proof {
            assert forall|v: WtnsView| #[trigger] is_wtns_emission_of(data@, v) implies false by {
                lemma_wtns_layout(v);
            }
        }
        return Err(Error::TruncatedSection);
    }
    let version = read_u32_le(data, 4);
    proof {
        assert(data@.subrange(0, 4) =~= wtns_magic());
    }
    if version != 2 {
        proof {
            vstd::bytes::lemma_auto_spec_u32_to_from_le_bytes();
            assert forall|v: WtnsView| #[trigger] is_wtns_emission_of(data@, v) implies false by {
                lemma_wtns_layout(v);
            }
        }
        return Err(Error::BadVersion);
    }
    let n_sections = read_u32_le(data, 8);

    let mut tps: Vec<u32> = Vec::new();
    let mut lens: Vec<usize> = Vec::new();
    let mut starts: Vec<usize> = Vec::new();
    let mut pos: usize = 12;
    let mut s: u32 = 0;
    proof {
        vstd::bytes::lemma_auto_spec_u32_to_from_le_bytes();
        vstd::bytes::lemma_auto_spec_u64_to_from_le_bytes();
        assert forall|v: WtnsView| #[trigger] is_wtns_emission_of(data@, v) implies n_sections
            == 2 by {
            lemma_wtns_layout(v);
        }
    }
    while s < n_sections
        invariant
            n == data@.len(),
            data@.subrange(0, 4) == wtns_magic(),
            spec_u32_from_le_bytes(data@.subrange(4, 8)) == 2,
            12 <= pos <= n,
            s <= n_sections,
            tps@.len() == s as nat,
            lens@.len() == s as nat,
            starts@.len() == s as nat,
            forall|t: int|
                0 <= t < s as int ==> (#[trigger] starts@[t]) + lens@[t] <= n,
            forall|v: WtnsView| #[trigger]
                is_wtns_emission_of(data@, v) ==> {
                    &&& n_sections == 2
                    &&& s <= 2
                    &&& pos as int == wtns_scan_pos(v, s as int)
                    &&& (s as int >= 1 ==> tps@[0] == 1 && lens@[0] as int == whlen(v)
                        && starts@[0] == 24)
                    &&& (s as int >= 2 ==> tps@[1] == 2 && lens@[1] as int == wdlen(v)
                        && starts@[1] as int == 36 + whlen(v))
                },
        decreases n_sections - s,
    {
        proof {
            vstd::bytes::lemma_auto_spec_u32_to_from_le_bytes();
            vstd::bytes::lemma_auto_spec_u64_to_from_le_bytes();
        }
        if n - pos < 12 {
            proof {
                assert forall|v: WtnsView| #[trigger] is_wtns_emission_of(data@, v)
                    implies false by {
                    lemma_wtns_layout(v);
                }
            }
            return Err(Error::TruncatedSection);
        }
        let t = read_u32_le(data, pos);
        let l = read_u64_le(data, pos + 4);
        if l > (usize::MAX as u64) {
            proof {
                assert forall|v: WtnsView| #[trigger] is_wtns_emission_of(data@, v)
                    implies false by {
                    lemma_wtns_layout(v);
                }
            }
            return Err(Error::ValueTooLarge);
        }
        let lu = l as usize;
        if lu > n - (pos + 12) {
            proof {
                assert forall|v: WtnsView| #[trigger] is_wtns_emission_of(data@, v)
                    implies false by {
                    lemma_wtns_layout(v);
                }
            }
            return Err(Error::TruncatedSection);
        }
        tps.push(t);
        lens.push(lu);
        starts.push(pos + 12);
        proof {
            assert forall|v: WtnsView| #[trigger] is_wtns_emission_of(data@, v) implies {
                &&& (s as int + 1 >= 1 ==> tps@[0] == 1 && lens@[0] as int == whlen(v)
                    && starts@[0] == 24)
                &&& (s as int + 1 >= 2 ==> tps@[1] == 2 && lens@[1] as int == wdlen(v)
                    && starts@[1] as int == 36 + whlen(v))
                &&& (pos + 12 + lu) as int == wtns_scan_pos(v, s as int + 1)
            } by {
                lemma_wtns_layout(v);
            }
        }
        pos = pos + 12 + lu;
        s = s + 1;
    }

    let n_found = tps.len();
    let mut h_idx: Option<usize> = None;
    let mut d_idx: Option<usize> = None;
    let mut idx: usize = 0;
    while idx < n_found
        invariant
            n == data@.len(),
            n >= 12,
            data@.subrange(0, 4) == wtns_magic(),
            spec_u32_from_le_bytes(data@.subrange(4, 8)) == 2,
            n_found == tps@.len(),
            lens@.len() == n_found,
            starts@.len() == n_found,
            idx <= n_found,
            forall|t: int|
                0 <= t < n_found as int ==> (#[trigger] starts@[t]) + lens@[t] <= n,
            h_idx matches Some(i) ==> i < n_found && tps@[i as int] == 1,
            d_idx matches Some(i) ==> i < n_found && tps@[i as int] == 2,
            forall|v: WtnsView| #[trigger]
                is_wtns_emission_of(data@, v) ==> {
                    &&& n_found == 2
                    &&& tps@[0] == 1 && lens@[0] as int == whlen(v) && starts@[0] == 24
                    &&& tps@[1] == 2 && lens@[1] as int == wdlen(v) && starts@[1] as int == 36
                        + whlen(v)
                    &&& h_idx == if idx >= 1 { Some(0usize) } else { None::<usize> }
                    &&& d_idx == if idx >= 2 { Some(1usize) } else { None::<usize> }
                },
        decreases n_found - idx,
    {
        let t = tps[idx];
        if t == 1 && h_idx.is_none() {
            h_idx = Some(idx);
        } else if t == 2 && d_idx.is_none() {
            d_idx = Some(idx);
        }
        idx = idx + 1;
    }

    let h_at = match h_idx {
        Some(i) => i,
        None => {
            proof {
                assert forall|v: WtnsView| #[trigger] is_wtns_emission_of(data@, v)
                    implies false by {}
            }
            return Err(Error::SectionMissing);
        },
    };
    let h_start = starts[h_at];
    let h_end = h_start + lens[h_at];
    if h_end - h_start < 4 {
        proof {
            assert forall|v: WtnsView| #[trigger] is_wtns_emission_of(data@, v) implies false by {
                lemma_wtns_layout(v);
                lemma_wtns_header_reads(data@, 24, v);
            }
        }
        return Err(Error::TruncatedSection);
    }
    let n8_w = read_u32_le(data, h_start);
    let n8 = n8_w as usize;
    if h_end - (h_start + 4) < n8 || h_end - (h_start + 4 + n8) < 4 {
        proof {
            vstd::bytes::lemma_auto_spec_u32_to_from_le_bytes();
            assert forall|v: WtnsView| #[trigger] is_wtns_emission_of(data@, v) implies false by {
                lemma_wtns_layout(v);
                lemma_wtns_header_reads(data@, 24, v);
            }
        }
        return Err(Error::TruncatedSection);
    }
    let prime = take_bytes(data, h_start + 4, n8);
    let n_witness = read_u32_le(data, h_start + 4 + n8);
    proof {
        vstd::bytes::lemma_auto_spec_u32_to_from_le_bytes();
        assert forall|v: WtnsView| #[trigger] is_wtns_emission_of(data@, v) implies prime@
            == v.prime && n8 as nat == v.prime.len() && n_witness == v.n_witness by {
            lemma_wtns_layout(v);
            lemma_wtns_header_reads(data@, 24, v);
        }
    }

    let d_at = match d_idx {
        Some(i) => i,
        None => {
            proof {
                assert forall|v: WtnsView| #[trigger] is_wtns_emission_of(data@, v)
                    implies false by {}
            }
            return Err(Error::SectionMissing);
        },
    };
    let d_start = starts[d_at];
    let d_len = lens[d_at];
    proof {
        assert((n_witness as int) * (n8_w as int) < 0xffffffffffffffff) by (nonlinear_arith)
            requires
                n_witness <= 0xffffffffu32,
                n8_w <= 0xffffffffu32,
        ;
    }
    let expected = (n_witness as u64) * (n8_w as u64);
    if expected > (usize::MAX as u64) || d_len as u64 != expected {
        proof {
            assert forall|v: WtnsView| #[trigger] is_wtns_emission_of(data@, v) implies false by {
                lemma_wtns_layout(v);
                lemma_cells_bytes_len(v.assignments, v.prime.len());
                assert((v.n_witness as u64) as int * (v.prime.len() as u32) as int
                    == v.assignments.len() * v.prime.len()) by (nonlinear_arith)
                    requires
                        v.assignments.len() == v.n_witness as nat,
                        v.prime.len() <= 0xffffffffnat,
                ;
            }
        }
        return Err(Error::SizeMismatch);
    }

    let mut assignments: Vec<Vec<u8>> = Vec::new();
    let mut i: u32 = 0;
    let mut cur: usize = d_start;
    while i < n_witness
        invariant
            n == data@.len(),
            data@.subrange(0, 4) == wtns_magic(),
            spec_u32_from_le_bytes(data@.subrange(4, 8)) == 2,
            i <= n_witness,
            assignments@.len() == i as nat,
            cur as int == d_start + (i as int) * (n8 as int),
            d_start + d_len <= n,
            d_len == (n_witness as int) * (n8 as int),
            cur + (n_witness as int - i as int) * (n8 as int) == d_start + d_len,
            forall|j: int|
                0 <= j < i as int ==> (#[trigger] assignments@[j])@ == data@.subrange(
                    d_start + j * (n8 as int),
                    d_start + j * (n8 as int) + n8 as int,
                ) && assignments@[j]@.len() == n8 as nat,
        decreases n_witness - i,
    {
        proof {
            assert((i as int + 1) * (n8 as int) == (i as int) * (n8 as int) + n8 as int)
                by (nonlinear_arith);
            assert((n_witness as int - i as int) * (n8 as int) >= n8 as int) by (nonlinear_arith)
                requires
                    i < n_witness,
            ;
            assert((n_witness as int - (i as int + 1)) * (n8 as int) == (n_witness as int
                - i as int) * (n8 as int) - n8 as int) by (nonlinear_arith);
        }
        let cell = take_bytes(data, cur, n8);
        assignments.push(cell);
        cur = cur + n8;
        i = i + 1;
    }

    let f = WitnessFile { prime, n_witness, assignments };
    proof {
        let hs = h_start as int;
        let ds = d_start as int;
        assert(forall|k: int|
            0 <= k < f.n_witness as int ==> #[trigger] f@.assignments[k] == data@.subrange(
                ds + k * (f.prime@.len() as int),
                ds + k * (f.prime@.len() as int) + f.prime@.len() as int,
            ));
        assert(wtns_reads_at(data@, f@, hs, ds));
        assert(exists|hs2: int, ds2: int| #[trigger] wtns_reads_at(data@, f@, hs2, ds2));
        assert forall|v: WtnsView| #[trigger] is_wtns_emission_of(data@, v) implies f@ =~= v by {
            lemma_wtns_layout(v);
            lemma_cells_reads(data@, 36 + whlen(v), v.assignments, v.prime.len());
            assert forall|j: int| 0 <= j < v.assignments.len() implies f@.assignments[j]
                == v.assignments[j] by {
                assert(f.assignments@[j]@ == data@.subrange(
                    36 + whlen(v) + j * (n8 as int),
                    36 + whlen(v) + j * (n8 as int) + n8 as int,
                ));
            }
            assert(f@.assignments =~= v.assignments);
        }
    }
    Ok(f)
}

} // verus!
