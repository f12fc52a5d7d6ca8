//! Little-endian and big-endian integer access into byte buffers.
//!
//! The binary containers handled by this crate (`r1cs`, `wtns`, the
//! ciphertext wire format and the combined frame) are sequences of
//! fixed-width integers and raw byte runs.  Everything here is specified
//! against the `vstd::bytes` conversion functions so that the codec
//! round-trip proofs can reuse their lemmas.

use vstd::bytes::{
    spec_u32_from_le_bytes, spec_u32_to_le_bytes, spec_u64_from_le_bytes, spec_u64_to_le_bytes,
    u32_from_le_bytes, u32_to_le_bytes, u64_from_le_bytes, u64_to_le_bytes,
};
use vstd::prelude::*;
use vstd::slice::slice_subrange;

verus! {

/// Reads the little-endian `u32` stored at `pos`.
pub fn read_u32_le(data: &Vec<u8>, pos: usize) -> (r: u32)
    requires
        pos + 4 <= data@.len(),
    ensures
        r == spec_u32_from_le_bytes(data@.subrange(pos as int, pos as int + 4)),
{
    let len = data.len();
    let s = slice_subrange(data.as_slice(), pos, pos + 4);
    u32_from_le_bytes(s)
}

/// Reads the little-endian `u64` stored at `pos`.
pub fn read_u64_le(data: &Vec<u8>, pos: usize) -> (r: u64)
    requires
        pos + 8 <= data@.len(),
    ensures
        r == spec_u64_from_le_bytes(data@.subrange(pos as int, pos as int + 8)),
{
    let len = data.len();
    let s = slice_subrange(data.as_slice(), pos, pos + 8);
    u64_from_le_bytes(s)
}

/// Appends the four little-endian bytes of `x` to `out`.
pub fn push_u32_le(out: &mut Vec<u8>, x: u32)
    ensures
        final(out)@ == old(out)@ + spec_u32_to_le_bytes(x),
{
    let mut b = u32_to_le_bytes(x);
    out.append(&mut b);
}

/// Appends the eight little-endian bytes of `x` to `out`.
pub fn push_u64_le(out: &mut Vec<u8>, x: u64)
    ensures
        final(out)@ == old(out)@ + spec_u64_to_le_bytes(x),
{
    let mut b = u64_to_le_bytes(x);
    out.append(&mut b);
}

/// The big-endian byte sequence of a `u32`; the combined frame uses
/// big-endian length prefixes.
pub open spec fn spec_u32_to_be_bytes(x: u32) -> Seq<u8> {
    spec_u32_to_le_bytes(x).reverse()
}

/// The `u32` stored big-endian in a four-byte sequence.
pub open spec fn spec_u32_from_be_bytes(s: Seq<u8>) -> u32
    recommends
        s.len() == 4,
{
    spec_u32_from_le_bytes(s.reverse())
}

/// Reads the big-endian `u32` stored at `pos`.
pub fn read_u32_be(data: &Vec<u8>, pos: usize) -> (r: u32)
    requires
        pos + 4 <= data@.len(),
    ensures
        r == spec_u32_from_be_bytes(data@.subrange(pos as int, pos as int + 4)),
{
    let len = data.len();
    let mut rev: Vec<u8> = Vec::new();
    rev.push(data[pos + 3]);
    rev.push(data[pos + 2]);
    rev.push(data[pos + 1]);
    rev.push(data[pos]);
    proof {
        vstd::bytes::lemma_auto_spec_u32_to_from_le_bytes();
        assert(rev@ =~= data@.subrange(pos as int, pos as int + 4).reverse());
    }
    u32_from_le_bytes(rev.as_slice())
}

/// Appends the four big-endian bytes of `x` to `out`.
pub fn push_u32_be(out: &mut Vec<u8>, x: u32)
    ensures
        final(out)@ == old(out)@ + spec_u32_to_be_bytes(x),
{
    let b = u32_to_le_bytes(x);
    proof {
        vstd::bytes::lemma_auto_spec_u32_to_from_le_bytes();
    }
    out.push(b[3]);
    out.push(b[2]);
    out.push(b[1]);
    out.push(b[0]);
    proof {
        assert(final(out)@ =~= old(out)@ + spec_u32_to_be_bytes(x));
    }
}

/// Appends a copy of `src` to `out`.
pub fn push_bytes(out: &mut Vec<u8>, src: &Vec<u8>)
    ensures
        final(out)@ == old(out)@ + src@,
{
    let n = src.len();
    let mut i: usize = 0;
    while i < n
        invariant
            n == src@.len(),
            i <= n,
            out@ == old(out)@ + src@.subrange(0, i as int),
        decreases n - i,
    {
        out.push(src[i]);
        i = i + 1;
        proof {
            assert(out@ =~= old(out)@ + src@.subrange(0, i as int));
        }
    }
    proof {
        assert(final(out)@ =~= old(out)@ + src@);
    }
}

/// Copies `data[pos .. pos + n]` into a fresh vector.
pub fn take_bytes(data: &Vec<u8>, pos: usize, n: usize) -> (r: Vec<u8>)
    requires
        pos + n <= data@.len(),
    ensures
        r@ == data@.subrange(pos as int, pos as int + n as int),
{
    let len = data.len();
    let mut r: Vec<u8> = Vec::new();
    let mut i: usize = 0;
    while i < n
        invariant
            pos + n <= len,
            len == data@.len(),
            i <= n,
            r@ == data@.subrange(pos as int, pos as int + i as int),
        decreases n - i,
    {
        r.push(data[pos + i]);
        i = i + 1;
        proof {
            assert(r@ =~= data@.subrange(pos as int, pos as int + i as int));
        }
    }
    r
}

/// A big-endian word read back equals the word written.
pub proof fn lemma_u32_be_round_trip(x: u32)
    ensures
        spec_u32_to_be_bytes(x).len() == 4,
        spec_u32_from_be_bytes(spec_u32_to_be_bytes(x)) == x,
{
    vstd::bytes::lemma_auto_spec_u32_to_from_le_bytes();
    assert(spec_u32_to_le_bytes(x).reverse().reverse() =~= spec_u32_to_le_bytes(x));
}

/// If a concatenation of three runs stands at `base`, the middle run stands
/// right after the first.
pub proof fn lemma_subrange_at(
    data: Seq<u8>,
    base: int,
    left: Seq<u8>,
    chunk: Seq<u8>,
    right: Seq<u8>,
)
    requires
        0 <= base,
        base + left.len() + chunk.len() + right.len() <= data.len(),
        data.subrange(base, base + left.len() + chunk.len() + right.len()) == left + chunk
            + right,
    ensures
        data.subrange(base + left.len(), base + left.len() + chunk.len()) == chunk,
{
    let whole = left + chunk + right;
    assert forall|t: int| 0 <= t < chunk.len() implies data.subrange(
        base + left.len(),
        base + left.len() + chunk.len(),
    )[t] == chunk[t] by {
        assert(data.subrange(base, base + whole.len())[left.len() + t] == whole[left.len() + t]);
        assert(whole[left.len() + t] == chunk[t]);
    }
    assert(data.subrange(base + left.len(), base + left.len() + chunk.len()) =~= chunk);
}

/// A byte run is the concatenation of its three parts.
pub proof fn lemma_split3(s: Seq<u8>, a: int, b: int)
    requires
        0 <= a <= b <= s.len(),
    ensures
        s == s.subrange(0, a) + s.subrange(a, b) + s.subrange(b, s.len() as int),
{
    assert(s =~= s.subrange(0, a) + s.subrange(a, b) + s.subrange(b, s.len() as int));
}

/// Overwrites every byte of `v` with zero; the scheme erases secret scalars
/// from working buffers before they are released.
pub fn zero_bytes(v: &mut Vec<u8>)
    ensures
        final(v)@.len() == old(v)@.len(),
        forall|i: int| 0 <= i < final(v)@.len() ==> final(v)@[i] == 0u8,
{
    let n = v.len();
    let mut i: usize = 0;
    while i < n
        invariant
            n == v@.len(),
            i <= n,
            forall|j: int| 0 <= j < i ==> v@[j] == 0u8,
        decreases n - i,
    {
        v.set(i, 0u8);
        i = i + 1;
    }
}

} // verus!
