//! The AEAD envelope and the combined frame.
//!
//! Payloads are wrapped with AES-256-GCM under a fresh random 12-byte nonce;
//! the output of a wrap is `nonce ∥ ciphertext ∥ tag`.  The combined frame
//! is `[flag | w_len(4 BE) | wkem ciphertext | (flag=1: p_len(4 BE) | blob)
//! | aead ciphertext]`, where the AEAD part runs to the end of the buffer.
//! A CTR mode wrap (confidentiality only) is kept alongside, with the same
//! key-length rule.

use crate::bytesutil::{
    push_bytes, push_u32_be, read_u32_be, spec_u32_from_be_bytes, spec_u32_to_be_bytes,
    take_bytes,
};
use crate::errors::Error;
use aes_gcm::aead::{Aead, AeadCore, KeyInit, OsRng};
use cipher::{KeyIvInit, StreamCipher};
use rand::RngCore;
use vstd::prelude::*;

verus! {

/// The AES-256-GCM sealing of a plaintext under a key and nonce: the
/// ciphertext followed by the 16-byte tag.  Named for what `aes_gcm`
/// computes; it depends on the three inputs alone.
pub uninterp spec fn gcm_seal(key: Seq<u8>, nonce: Seq<u8>, pt: Seq<u8>) -> Seq<u8>;

/// The AES-256-CTR keystream XOR of a buffer under a key and IV.  Named for
/// what `ctr` computes; it depends on the three inputs alone.
pub uninterp spec fn ctr_stream_xor(key: Seq<u8>, iv: Seq<u8>, data: Seq<u8>) -> Seq<u8>;

/// Relies on `aes_gcm::Aes256Gcm`: encryption under a fresh random nonce
/// drawn from the operating system.  The output is the 12-byte nonce
/// followed by the sealing of the plaintext under that nonce; the sealing is
/// 16 bytes (the tag) longer than the plaintext.
#[verifier::external_body]
fn gcm_encrypt(key: &Vec<u8>, pt: &Vec<u8>) -> (r: Vec<u8>)
    requires
        key@.len() == 32,
        pt@.len() < 0x800000000,
    ensures
        r@.len() == pt@.len() + 28,
        r@.subrange(12, r@.len() as int) == gcm_seal(key@, r@.subrange(0, 12), pt@),
{
    let cipher = aes_gcm::Aes256Gcm::new_from_slice(key.as_slice()).unwrap();
    let nonce = aes_gcm::Aes256Gcm::generate_nonce(&mut OsRng);
    let ct = cipher.encrypt(&nonce, pt.as_slice()).unwrap();
    let mut out = nonce.to_vec();
    out.extend_from_slice(&ct);
    out
}

/// Relies on `aes_gcm::Aes256Gcm` decryption: it returns the plaintext
/// whose sealing under the given nonce is the input — so any sealed buffer
/// opens back to its plaintext — and reports a failed tag check otherwise.
#[verifier::external_body]
fn gcm_decrypt(key: &Vec<u8>, nonce: &Vec<u8>, ct: &Vec<u8>) -> (r: Result<Vec<u8>, Error>)
    requires
        key@.len() == 32,
        nonce@.len() == 12,
        ct@.len() >= 16,
    ensures
        r matches Ok(pt) ==> ct@ == gcm_seal(key@, nonce@, pt@),
        r matches Ok(o) ==> (forall|pt: Seq<u8>|
            ct@ == gcm_seal(key@, nonce@, pt) ==> o@ == pt),
        r matches Err(e) ==> e == Error::AuthenticationFailed && (forall|pt: Seq<u8>|
            ct@ != gcm_seal(key@, nonce@, pt)),
{
    let cipher = aes_gcm::Aes256Gcm::new_from_slice(key.as_slice()).unwrap();
    let n = aes_gcm::Nonce::from_slice(nonce.as_slice());
    match cipher.decrypt(n, ct.as_slice()) {
        Ok(pt) => Ok(pt),
        Err(_) => Err(Error::AuthenticationFailed),
    }
}

/// Relies on `ctr::Ctr64BE<aes::Aes256>::apply_keystream`: the keystream
/// XOR of the buffer, which is its own inverse under the same key and IV.
#[verifier::external_body]
fn ctr_apply(key: &Vec<u8>, iv: &Vec<u8>, data: &Vec<u8>) -> (r: Vec<u8>)
    requires
        key@.len() == 32,
        iv@.len() == 16,
    ensures
        r@ == ctr_stream_xor(key@, iv@, data@),
        r@.len() == data@.len(),
        ctr_stream_xor(key@, iv@, r@) == data@,
{
    let mut cipher: ctr::Ctr64BE<aes::Aes256> =
        ctr::Ctr64BE::new(key.as_slice().into(), iv.as_slice().into());
    let mut buf = data.clone();
    cipher.apply_keystream(&mut buf);
    buf
}

/// Relies on `rand::thread_rng` filling a buffer with random bytes.
#[verifier::external_body]
fn random_bytes(n: usize) -> (r: Vec<u8>)
    ensures
        r@.len() == n as nat,
{
    let mut buf = vec![0u8; n];
    rand::thread_rng().fill_bytes(&mut buf);
    buf
}

/// Encrypts with AES-256-GCM under a fresh random nonce.  The key must be
/// exactly 32 bytes; the output is `nonce(12) ∥ ciphertext ∥ tag(16)`.
pub fn encrypt_gcm(key: &Vec<u8>, plaintext: &Vec<u8>) -> (r: Result<Vec<u8>, Error>)
    requires
        plaintext@.len() < 0x800000000,
    ensures
        r is Ok <==> key@.len() == 32,
        r matches Ok(out) ==> {
            &&& out@.len() == plaintext@.len() + 28
            &&& out@.subrange(12, out@.len() as int) == gcm_seal(
                key@,
                out@.subrange(0, 12),
                plaintext@,
            )
        },
        r is Err ==> r == Err::<Vec<u8>, Error>(Error::BadKeyLength),
{
    if key.len() != 32 {
        return Err(Error::BadKeyLength);
    }
    Ok(gcm_encrypt(key, plaintext))
}

/// Decrypts an AES-256-GCM buffer of the form `nonce ∥ ciphertext ∥ tag`.
/// The key must be 32 bytes and the buffer at least 28; a buffer produced
/// by sealing a plaintext under the carried nonce opens back to it.
pub fn decrypt_gcm(key: &Vec<u8>, data: &Vec<u8>) -> (r: Result<Vec<u8>, Error>)
    ensures
        key@.len() != 32 ==> r == Err::<Vec<u8>, Error>(Error::BadKeyLength),
        key@.len() == 32 && data@.len() < 28 ==> r == Err::<Vec<u8>, Error>(Error::BadFrame),
        r matches Ok(pt) ==> key@.len() == 32 && data@.len() >= 28 && data@.subrange(
            12,
            data@.len() as int,
        ) == gcm_seal(key@, data@.subrange(0, 12), pt@),
        forall|pt: Seq<u8>|
            (key@.len() == 32 && data@.len() >= 28 && data@.subrange(12, data@.len() as int)
                == gcm_seal(key@, data@.subrange(0, 12), pt)) ==> (r matches Ok(o) && o@ == pt),
        key@.len() == 32 && data@.len() >= 28 && (r is Err) ==> r == Err::<Vec<u8>, Error>(
            Error::AuthenticationFailed,
        ),
{
    if key.len() != 32 {
        return Err(Error::BadKeyLength);
    }
    let n = data.len();
    if n < 28 {
        return Err(Error::BadFrame);
    }
    let nonce = take_bytes(data, 0, 12);
    let ct = take_bytes(data, 12, n - 12);
    gcm_decrypt(key, &nonce, &ct)
}

/// Encrypts with AES-256-CTR under a fresh random IV.  The key must be
/// exactly 32 bytes; the output is `iv(16) ∥ ciphertext`.
pub fn encrypt_ctr(key: &Vec<u8>, plaintext: &Vec<u8>) -> (r: Result<Vec<u8>, Error>)
    ensures
        r is Ok <==> key@.len() == 32,
        r matches Ok(out) ==> {
            &&& out@.len() == plaintext@.len() + 16
            &&& out@.subrange(16, out@.len() as int) == ctr_stream_xor(
                key@,
                out@.subrange(0, 16),
                plaintext@,
            )
            &&& ctr_stream_xor(key@, out@.subrange(0, 16), out@.subrange(16, out@.len() as int))
                == plaintext@
        },
        r is Err ==> r == Err::<Vec<u8>, Error>(Error::BadKeyLength),
{
    if key.len() != 32 {
        return Err(Error::BadKeyLength);
    }
    let iv = random_bytes(16);
    let ct = ctr_apply(key, &iv, plaintext);
    let mut out: Vec<u8> = Vec::new();
    push_bytes(&mut out, &iv);
    push_bytes(&mut out, &ct);
    proof {
        assert(out@.subrange(0, 16) =~= iv@);
        assert(out@.subrange(16, out@.len() as int) =~= ct@);
    }
    Ok(out)
}

/// Decrypts an AES-256-CTR buffer of the form `iv ∥ ciphertext`.  The
/// keystream XOR is its own inverse, and both functions state the inverse
/// application of their result, so a caller derives that what `encrypt_ctr`
/// produced decrypts back to its plaintext.
pub fn decrypt_ctr(key: &Vec<u8>, data: &Vec<u8>) -> (r: Result<Vec<u8>, Error>)
    ensures
        key@.len() != 32 ==> r == Err::<Vec<u8>, Error>(Error::BadKeyLength),
        key@.len() == 32 && data@.len() < 16 ==> r == Err::<Vec<u8>, Error>(Error::BadFrame),
        key@.len() == 32 && data@.len() >= 16 ==> (r matches Ok(pt) && pt@ == ctr_stream_xor(
            key@,
            data@.subrange(0, 16),
            data@.subrange(16, data@.len() as int),
        ) && ctr_stream_xor(key@, data@.subrange(0, 16), pt@) == data@.subrange(
            16,
            data@.len() as int,
        )),
{
    if key.len() != 32 {
        return Err(Error::BadKeyLength);
    }
    let n = data.len();
    if n < 16 {
        return Err(Error::BadFrame);
    }
    let iv = take_bytes(data, 0, 16);
    let ct = take_bytes(data, 16, n - 16);
    Ok(ctr_apply(key, &iv, &ct))
}

/// The bytes of a combined frame: flag, big-endian length of the wkem
/// ciphertext, the wkem ciphertext, for flag one a big-endian
/// length-prefixed blob, then the AEAD ciphertext to the end.
pub open spec fn frame_bytes(w: Seq<u8>, blob: Option<Seq<u8>>, aead: Seq<u8>) -> Seq<u8> {
    match blob {
        Some(b) => seq![1u8] + spec_u32_to_be_bytes(w.len() as u32) + w + spec_u32_to_be_bytes(
            b.len() as u32,
        ) + b + aead,
        None => seq![0u8] + spec_u32_to_be_bytes(w.len() as u32) + w + aead,
    }
}

/// Builds a combined frame from its parts.
pub fn build_frame(w: &Vec<u8>, blob: Option<&Vec<u8>>, aead: &Vec<u8>) -> (r: Result<
    Vec<u8>,
    Error,
>)
    ensures
        r is Ok <==> (w@.len() <= 0xffffffffnat && (blob matches Some(b) ==> b@.len()
            <= 0xffffffffnat)),
        r matches Ok(out) ==> out@ == frame_bytes(
            w@,
            match blob {
                Some(b) => Some(b@),
                None => None,
            },
            aead@,
        ),
        r is Err ==> r == Err::<Vec<u8>, Error>(Error::ValueTooLarge),
{
    if w.len() > 0xffffffffusize {
        return Err(Error::ValueTooLarge);
    }
    let mut out: Vec<u8> = Vec::new();
    match blob {
        Some(b) => {
            if b.len() > 0xffffffffusize {
                return Err(Error::ValueTooLarge);
            }
            out.push(1u8);
            push_u32_be(&mut out, w.len() as u32);
            push_bytes(&mut out, w);
            push_u32_be(&mut out, b.len() as u32);
            push_bytes(&mut out, b);
            push_bytes(&mut out, aead);
            proof {
                assert(out@ =~= frame_bytes(w@, Some(b@), aead@));
            }
        },
        None => {
            out.push(0u8);
            push_u32_be(&mut out, w.len() as u32);
            push_bytes(&mut out, w);
            push_bytes(&mut out, aead);
            proof {
                assert(out@ =~= frame_bytes(w@, None, aead@));
            }
        },
    }
    Ok(out)
}

/// Where every chunk of a frame stands.
proof fn lemma_frame_layout(w: Seq<u8>, blob: Option<Seq<u8>>, aead: Seq<u8>)
    requires
        w.len() <= 0xffffffffnat,
        blob matches Some(b) ==> b.len() <= 0xffffffffnat,
    ensures
        frame_bytes(w, blob, aead)[0] == (if blob is Some {
            1u8
        } else {
            0u8
        }),
        frame_bytes(w, blob, aead).subrange(1, 5) == spec_u32_to_be_bytes(w.len() as u32),
        frame_bytes(w, blob, aead).subrange(5, 5 + w.len() as int) == w,
        blob matches Some(b) ==> {
            &&& frame_bytes(w, blob, aead).len() == 9 + w.len() + b.len() + aead.len()
            &&& frame_bytes(w, blob, aead).subrange(5 + w.len() as int, 9 + w.len() as int)
                == spec_u32_to_be_bytes(b.len() as u32)
            &&& frame_bytes(w, blob, aead).subrange(
                9 + w.len() as int,
                9 + w.len() as int + b.len() as int,
            ) == b
            &&& frame_bytes(w, blob, aead).subrange(
                9 + w.len() as int + b.len() as int,
                frame_bytes(w, blob, aead).len() as int,
            ) == aead
        },
        blob is None ==> {
            &&& frame_bytes(w, blob, aead).len() == 5 + w.len() + aead.len()
            &&& frame_bytes(w, blob, aead).subrange(
                5 + w.len() as int,
                frame_bytes(w, blob, aead).len() as int,
            ) == aead
        },
{
    vstd::bytes::lemma_auto_spec_u32_to_from_le_bytes();
    let d = frame_bytes(w, blob, aead);
    match blob {
        Some(b) => {
            let fl = seq![1u8];
            let lw = spec_u32_to_be_bytes(w.len() as u32);
            let lb = spec_u32_to_be_bytes(b.len() as u32);
            assert(lw.len() == 4 && lb.len() == 4);
            assert(d.subrange(0, d.len() as int) =~= d);
            assert(d =~= Seq::empty() + fl + (lw + w + lb + b + aead));
            crate::bytesutil::lemma_subrange_at(d, 0, Seq::empty(), fl, lw + w + lb + b + aead);
            assert(d[0] == d.subrange(0, 1)[0]);
            assert(d =~= fl + lw + (w + lb + b + aead));
            crate::bytesutil::lemma_subrange_at(d, 0, fl, lw, w + lb + b + aead);
            assert(d =~= (fl + lw) + w + (lb + b + aead));
            crate::bytesutil::lemma_subrange_at(d, 0, fl + lw, w, lb + b + aead);
            assert(d =~= (fl + lw + w) + lb + (b + aead));
            crate::bytesutil::lemma_subrange_at(d, 0, fl + lw + w, lb, b + aead);
            assert(d =~= (fl + lw + w + lb) + b + aead);
            crate::bytesutil::lemma_subrange_at(d, 0, fl + lw + w + lb, b, aead);
            assert(d =~= (fl + lw + w + lb + b) + aead + Seq::empty());
            crate::bytesutil::lemma_subrange_at(d, 0, fl + lw + w + lb + b, aead, Seq::empty());
        },
        None => {
            let fl = seq![0u8];
            let lw = spec_u32_to_be_bytes(w.len() as u32);
            assert(lw.len() == 4);
            assert(d.subrange(0, d.len() as int) =~= d);
            assert(d =~= Seq::empty() + fl + (lw + w + aead));
            crate::bytesutil::lemma_subrange_at(d, 0, Seq::empty(), fl, lw + w + aead);
            assert(d[0] == d.subrange(0, 1)[0]);
            assert(d =~= fl + lw + (w + aead));
            crate::bytesutil::lemma_subrange_at(d, 0, fl, lw, w + aead);
            assert(d =~= (fl + lw) + w + aead);
            crate::bytesutil::lemma_subrange_at(d, 0, fl + lw, w, aead);
            assert(d =~= (fl + lw + w) + aead + Seq::empty());
            crate::bytesutil::lemma_subrange_at(d, 0, fl + lw + w, aead, Seq::empty());
        },
    }
}

/// Splits a combined frame into its parts: the flag's meaning, the wkem
/// ciphertext, the optional blob, and the AEAD remainder.  Any buffer built
/// by `build_frame` splits back into the parts it was built from; a flag
/// other than 0 or 1, or any length running past the buffer, is refused as
/// `BadFrame` before anything else is touched.
pub fn parse_frame(data: &Vec<u8>) -> (r: Result<(Vec<u8>, Option<Vec<u8>>, Vec<u8>), Error>)
    ensures
        r matches Ok(p) ==> data@.len() >= 5 && (data@[0] == 0 || data@[0] == 1) && (data@[0]
            == 1 <==> p.1 is Some),
        r matches Ok(p) ==> {
            let wlen = spec_u32_from_be_bytes(data@.subrange(1, 5)) as int;
            &&& 5 + wlen <= data@.len()
            &&& p.0@ == data@.subrange(5, 5 + wlen)
            &&& (data@[0] == 0 ==> p.2@ == data@.subrange(5 + wlen, data@.len() as int))
            &&& (data@[0] == 1 ==> {
                let plen = spec_u32_from_be_bytes(
                    data@.subrange(5 + wlen, 9 + wlen),
                ) as int;
                &&& 9 + wlen + plen <= data@.len()
                &&& (p.1 matches Some(b) && b@ == data@.subrange(9 + wlen, 9 + wlen + plen))
                &&& p.2@ == data@.subrange(9 + wlen + plen, data@.len() as int)
            })
        },
        forall|w: Seq<u8>, blob: Option<Seq<u8>>, aead: Seq<u8>|
            {
                &&& w.len() <= 0xffffffffnat
                &&& (blob matches Some(b) ==> b.len() <= 0xffffffffnat)
                &&& data@ == #[trigger] frame_bytes(w, blob, aead)
            } ==> (r matches Ok(p) && p.0@ == w && (match (p.1, blob) {
                (Some(pb), Some(b)) => pb@ == b,
                (None, None) => true,
                _ => false,
            }) && p.2@ == aead),
        r matches Err(e) ==> e == Error::BadFrame,
{
    let n = data.len();
    if n < 5 {
        proof {
            assert forall|w: Seq<u8>, blob: Option<Seq<u8>>, aead: Seq<u8>|
                {
                    &&& w.len() <= 0xffffffffnat
                    &&& (blob matches Some(b) ==> b.len() <= 0xffffffffnat)
                    &&& data@ == #[trigger] frame_bytes(w, blob, aead)
                } implies false by {
                lemma_frame_layout(w, blob, aead);
                crate::bytesutil::lemma_u32_be_round_trip(w.len() as u32);
                if blob is Some {
                    crate::bytesutil::lemma_u32_be_round_trip(blob.unwrap().len() as u32);
                }
            }
        }
        return Err(Error::BadFrame);
    }
    let flag = data[0];
    if flag != 0 && flag != 1 {
        proof {
            assert forall|w: Seq<u8>, blob: Option<Seq<u8>>, aead: Seq<u8>|
                {
                    &&& w.len() <= 0xffffffffnat
                    &&& (blob matches Some(b) ==> b.len() <= 0xffffffffnat)
                    &&& data@ == #[trigger] frame_bytes(w, blob, aead)
                } implies false by {
                lemma_frame_layout(w, blob, aead);
                crate::bytesutil::lemma_u32_be_round_trip(w.len() as u32);
                if blob is Some {
                    crate::bytesutil::lemma_u32_be_round_trip(blob.unwrap().len() as u32);
                }
            }
        }
        return Err(Error::BadFrame);
    }
    let w_len32 = read_u32_be(data, 1);
    let w_len = w_len32 as usize;
    if w_len > n - 5 {
        proof {
            vstd::bytes::lemma_auto_spec_u32_to_from_le_bytes();
            assert forall|w: Seq<u8>, blob: Option<Seq<u8>>, aead: Seq<u8>|
                {
                    &&& w.len() <= 0xffffffffnat
                    &&& (blob matches Some(b) ==> b.len() <= 0xffffffffnat)
                    &&& data@ == #[trigger] frame_bytes(w, blob, aead)
                } implies false by {
                lemma_frame_layout(w, blob, aead);
                crate::bytesutil::lemma_u32_be_round_trip(w.len() as u32);
                if blob is Some {
                    crate::bytesutil::lemma_u32_be_round_trip(blob.unwrap().len() as u32);
                }
            }
        }
        return Err(Error::BadFrame);
    }
    let w_bytes = take_bytes(data, 5, w_len);
    let mut pos: usize = 5 + w_len;
    if flag == 1 {
        if n - pos < 4 {
            proof {
                vstd::bytes::lemma_auto_spec_u32_to_from_le_bytes();
                assert forall|w: Seq<u8>, blob: Option<Seq<u8>>, aead: Seq<u8>|
                    {
                        &&& w.len() <= 0xffffffffnat
                        &&& (blob matches Some(b) ==> b.len() <= 0xffffffffnat)
                        &&& data@ == #[trigger] frame_bytes(w, blob, aead)
                    } implies false by {
                    lemma_frame_layout(w, blob, aead);
                    crate::bytesutil::lemma_u32_be_round_trip(w.len() as u32);
                    if blob is Some {
                        crate::bytesutil::lemma_u32_be_round_trip(blob.unwrap().len() as u32);
                    }
                }
            }
            return Err(Error::BadFrame);
        }
        let p_len32 = read_u32_be(data, pos);
        let p_len = p_len32 as usize;
        if p_len > n - (pos + 4) {
            proof {
                vstd::bytes::lemma_auto_spec_u32_to_from_le_bytes();
                assert forall|w: Seq<u8>, blob: Option<Seq<u8>>, aead: Seq<u8>|
                    {
                        &&& w.len() <= 0xffffffffnat
                        &&& (blob matches Some(b) ==> b.len() <= 0xffffffffnat)
                        &&& data@ == #[trigger] frame_bytes(w, blob, aead)
                    } implies false by {
                    lemma_frame_layout(w, blob, aead);
                    crate::bytesutil::lemma_u32_be_round_trip(w.len() as u32);
                    if blob is Some {
                        crate::bytesutil::lemma_u32_be_round_trip(blob.unwrap().len() as u32);
                    }
                }
            }
            return Err(Error::BadFrame);
        }
        let blob = take_bytes(data, pos + 4, p_len);
        let aead = take_bytes(data, pos + 4 + p_len, n - (pos + 4 + p_len));
        proof {
            vstd::bytes::lemma_auto_spec_u32_to_from_le_bytes();
            assert forall|w: Seq<u8>, blobv: Option<Seq<u8>>, aeadv: Seq<u8>|
                {
                    &&& w.len() <= 0xffffffffnat
                    &&& (blobv matches Some(b) ==> b.len() <= 0xffffffffnat)
                    &&& data@ == #[trigger] frame_bytes(w, blobv, aeadv)
                } implies (w_bytes@ == w && (blobv matches Some(b) && blob@ == b) && aead@
                == aeadv) by {
                lemma_frame_layout(w, blobv, aeadv);
                crate::bytesutil::lemma_u32_be_round_trip(w.len() as u32);
                if blobv is Some {
                    crate::bytesutil::lemma_u32_be_round_trip(blobv.unwrap().len() as u32);
                }
            }
        }
        return Ok((w_bytes, Some(blob), aead));
    }
    let aead = take_bytes(data, pos, n - pos);
    proof {
        vstd::bytes::lemma_auto_spec_u32_to_from_le_bytes();
        assert forall|w: Seq<u8>, blobv: Option<Seq<u8>>, aeadv: Seq<u8>|
            {
                &&& w.len() <= 0xffffffffnat
                &&& (blobv matches Some(b) ==> b.len() <= 0xffffffffnat)
                &&& data@ == #[trigger] frame_bytes(w, blobv, aeadv)
            } implies (w_bytes@ == w && blobv is None && aead@ == aeadv) by {
            lemma_frame_layout(w, blobv, aeadv);
            crate::bytesutil::lemma_u32_be_round_trip(w.len() as u32);
            if blobv is Some {
                crate::bytesutil::lemma_u32_be_round_trip(blobv.unwrap().len() as u32);
            }
        }
    }
    Ok((w_bytes, None, aead))
}

/// The view of an optional borrowed byte buffer.
pub open spec fn opt_view(o: Option<&Vec<u8>>) -> Option<Seq<u8>> {
    match o {
        Some(b) => Some(b@),
        None => None,
    }
}

/// Wraps a message: encrypts it under the key and frames it after the wkem
/// ciphertext, embedding the blob when one is given.
pub fn encrypt_frame(key: &Vec<u8>, w: &Vec<u8>, msg: &Vec<u8>, extra: Option<&Vec<u8>>) -> (r:
    Result<Vec<u8>, Error>)
    requires
        msg@.len() < 0x800000000,
    ensures
        r matches Ok(out) ==> key@.len() == 32 && w@.len() <= 0xffffffffnat && exists|
            nonce: Seq<u8>,
        |
            {
                &&& nonce.len() == 12
                &&& gcm_seal(key@, nonce, msg@).len() == msg@.len() + 16
                &&& out@ == #[trigger] frame_bytes(
                    w@,
                    opt_view(extra),
                    nonce + gcm_seal(key@, nonce, msg@),
                )
            },
        key@.len() == 32 && w@.len() <= 0xffffffffnat && (extra matches Some(b) ==> b@.len()
            <= 0xffffffffnat) ==> r is Ok,
        key@.len() != 32 ==> r == Err::<Vec<u8>, Error>(Error::BadKeyLength),
        r matches Err(e) ==> e == Error::BadKeyLength || e == Error::ValueTooLarge,
{
    let sealed = match encrypt_gcm(key, msg) {
        Ok(v) => v,
        Err(e) => {
            return Err(e);
        },
    };
    let out = match build_frame(w, extra, &sealed) {
        Ok(v) => v,
        Err(e) => {
            return Err(e);
        },
    };
    proof {
        let nonce = sealed@.subrange(0, 12);
        assert(sealed@ =~= nonce + gcm_seal(key@, nonce, msg@));
    }
    Ok(out)
}

/// Unwraps a frame: splits it, recovers the embedded blob when the flag
/// says one is present, and decrypts the AEAD remainder under the key.
/// Splitting a frame built by `encrypt_frame` under the same key returns
/// the message and the blob it was built from.
pub fn decrypt_frame(key: &Vec<u8>, data: &Vec<u8>) -> (r: Result<
    (Vec<u8>, Option<Vec<u8>>),
    Error,
>)
    ensures
        forall|w: Seq<u8>, blob: Option<Seq<u8>>, nonce: Seq<u8>, msg: Seq<u8>|
            {
                &&& key@.len() == 32
                &&& w.len() <= 0xffffffffnat
                &&& (blob matches Some(b) ==> b.len() <= 0xffffffffnat)
                &&& nonce.len() == 12
                &&& gcm_seal(key@, nonce, msg).len() == msg.len() + 16
                &&& data@ == #[trigger] frame_bytes(w, blob, nonce + gcm_seal(key@, nonce, msg))
            } ==> (r matches Ok(p) && p.0@ == msg && (match (p.1, blob) {
                (Some(pb), Some(b)) => pb@ == b,
                (None, None) => true,
                _ => false,
            })),
        r matches Err(e) ==> (e == Error::BadFrame || e == Error::AuthenticationFailed || e
            == Error::BadKeyLength),
{
    let parts = match parse_frame(data) {
        Ok(p) => p,
        Err(e) => {
            return Err(e);
        },
    };
    let (w_bytes, blob, aead) = parts;
    let msg = match decrypt_gcm(key, &aead) {
        Ok(v) => v,
        Err(e) => {
            proof {
                assert forall|w: Seq<u8>, blobv: Option<Seq<u8>>, nonce: Seq<u8>, msgv: Seq<u8>|
                    {
                        &&& key@.len() == 32
                        &&& w.len() <= 0xffffffffnat
                        &&& (blobv matches Some(b) ==> b.len() <= 0xffffffffnat)
                        &&& nonce.len() == 12
                        &&& gcm_seal(key@, nonce, msgv).len() == msgv.len() + 16
                        &&& data@ == #[trigger] frame_bytes(
                            w,
                            blobv,
                            nonce + gcm_seal(key@, nonce, msgv),
                        )
                    } implies false by {
                    assert(aead@ == nonce + gcm_seal(key@, nonce, msgv));
                    assert(aead@.subrange(0, 12) =~= nonce);
                    assert(aead@.subrange(12, aead@.len() as int) =~= gcm_seal(key@, nonce,
                        msgv));
                }
            }
            return Err(e);
        },
    };
    proof {
        assert forall|w: Seq<u8>, blobv: Option<Seq<u8>>, nonce: Seq<u8>, msgv: Seq<u8>|
            {
                &&& key@.len() == 32
                &&& w.len() <= 0xffffffffnat
                &&& (blobv matches Some(b) ==> b.len() <= 0xffffffffnat)
                &&& nonce.len() == 12
                &&& gcm_seal(key@, nonce, msgv).len() == msgv.len() + 16
                &&& data@ == #[trigger] frame_bytes(w, blobv, nonce + gcm_seal(key@, nonce, msgv))
            } implies (msg@ == msgv && (match (blob, blobv) {
            (Some(pb), Some(b)) => pb@ == b,
            (None, None) => true,
            _ => false,
        })) by {
            assert(aead@ == nonce + gcm_seal(key@, nonce, msgv));
            assert(aead@.subrange(0, 12) =~= nonce);
            assert(aead@.subrange(12, aead@.len() as int) =~= gcm_seal(key@, nonce, msgv));
        }
    }
    Ok((msg, blob))
}

} // verus!
