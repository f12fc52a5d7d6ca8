// The AEAD envelope and the combined frame: GCM and CTR round trips, key
// checks, frame framing, bit flips.

use zkenc::errors::Error;
use zkenc::frame::{
    build_frame, decrypt_ctr, decrypt_frame, decrypt_gcm, encrypt_ctr, encrypt_frame,
    encrypt_gcm, parse_frame,
};

#[test]
fn test_gcm_roundtrip() {
    let key = b"12345678901234567890123456789012".to_vec();
    let plaintext = b"Hello, World!".to_vec();
    let encrypted = encrypt_gcm(&key, &plaintext).unwrap();
    assert!(encrypted.len() > plaintext.len());
    let decrypted = decrypt_gcm(&key, &encrypted).unwrap();
    assert_eq!(plaintext, decrypted);
}

#[test]
fn test_ctr_roundtrip() {
    let key = b"12345678901234567890123456789012".to_vec();
    let plaintext = b"Hello, World!".to_vec();
    let encrypted = encrypt_ctr(&key, &plaintext).unwrap();
    assert!(encrypted.len() > plaintext.len());
    let decrypted = decrypt_ctr(&key, &encrypted).unwrap();
    assert_eq!(plaintext, decrypted);
    // The keystream really was applied: the ciphertext body differs from
    // the plaintext.
    assert_ne!(&encrypted[16..], &plaintext[..]);
}

#[test]
fn test_gcm_wrong_key() {
    let key1 = b"12345678901234567890123456789012".to_vec();
    let key2 = b"99999999999999999999999999999999".to_vec();
    let plaintext = b"Secret message".to_vec();
    let encrypted = encrypt_gcm(&key1, &plaintext).unwrap();
    let result = decrypt_gcm(&key2, &encrypted);
    assert!(result.is_err(), "Should fail with wrong key");
}

#[test]
fn test_invalid_key_length() {
    let short_key = b"too_short".to_vec();
    let plaintext = b"data".to_vec();
    assert!(encrypt_gcm(&short_key, &plaintext).is_err());
    assert!(encrypt_ctr(&short_key, &plaintext).is_err());
    assert_eq!(encrypt_gcm(&short_key, &plaintext).err(), Some(Error::BadKeyLength));
}

#[test]
fn test_aes_gcm_roundtrip() {
    let key = b"01234567890123456789012345678901".to_vec();
    let plaintext = b"Hello! This is a secret message.".to_vec();
    let ct = encrypt_gcm(&key, &plaintext).unwrap();
    let pt = decrypt_gcm(&key, &ct).unwrap();
    assert_eq!(pt, plaintext);
    assert_eq!(ct.len(), plaintext.len() + 28);
}

#[test]
fn test_aes_ctr_roundtrip() {
    let key = b"01234567890123456789012345678901".to_vec();
    let plaintext = b"Hello! This is another secret message.".to_vec();
    let ct = encrypt_ctr(&key, &plaintext).unwrap();
    let pt = decrypt_ctr(&key, &ct).unwrap();
    assert_eq!(pt, plaintext);
    assert_eq!(ct.len(), plaintext.len() + 16);
}

#[test]
fn gcm_bit_flip_fails() {
    // Flipping any bit of the AEAD buffer makes decryption fail.
    let key = b"12345678901234567890123456789012".to_vec();
    let plaintext = b"flip me".to_vec();
    let encrypted = encrypt_gcm(&key, &plaintext).unwrap();
    for i in 0..encrypted.len() {
        for bit in 0..8 {
            let mut tampered = encrypted.clone();
            tampered[i] ^= 1u8 << bit;
            assert!(decrypt_gcm(&key, &tampered).is_err());
        }
    }
}

#[test]
fn frame_round_trip_without_blob() {
    let key = b"12345678901234567890123456789012".to_vec();
    let w = b"wkem-ct-bytes".to_vec();
    let msg = b"the payload".to_vec();
    let frame = encrypt_frame(&key, &w, &msg, None).unwrap();
    assert_eq!(frame[0], 0);
    let (got_w, blob, _aead) = parse_frame(&frame).unwrap();
    assert_eq!(got_w, w);
    assert!(blob.is_none());
    let (pt, blob) = decrypt_frame(&key, &frame).unwrap();
    assert_eq!(pt, msg);
    assert!(blob.is_none());
}

#[test]
fn frame_with_embedded_public_blob() {
    // flag = 1, the blob is recovered byte for byte and the plaintext
    // matches.
    let key = b"12345678901234567890123456789012".to_vec();
    let w = b"sigma".to_vec();
    let msg = b"covered text".to_vec();
    let extra = b"{\"a\":5}".to_vec();
    let frame = encrypt_frame(&key, &w, &msg, Some(&extra)).unwrap();
    assert_eq!(frame[0], 1);
    let (got_w, blob, _aead) = parse_frame(&frame).unwrap();
    assert_eq!(got_w, w);
    assert_eq!(blob.unwrap(), extra);
    let (pt, blob) = decrypt_frame(&key, &frame).unwrap();
    assert_eq!(pt, msg);
    assert_eq!(blob.unwrap(), extra);
}

#[test]
fn frame_with_flag_two_is_refused() {
    // A flag outside zero and one is a malformed frame; the AEAD is never
    // reached.
    let key = b"12345678901234567890123456789012".to_vec();
    let w = b"sigma".to_vec();
    let msg = b"covered text".to_vec();
    let mut frame = encrypt_frame(&key, &w, &msg, None).unwrap();
    frame[0] = 2;
    assert_eq!(parse_frame(&frame).err(), Some(Error::BadFrame));
    assert_eq!(decrypt_frame(&key, &frame).err(), Some(Error::BadFrame));
}

#[test]
fn frame_too_short_and_bad_lengths() {
    let key = b"12345678901234567890123456789012".to_vec();
    assert_eq!(parse_frame(&vec![1, 2, 3]).err(), Some(Error::BadFrame));
    // A w_len running past the buffer.
    let mut bad = vec![0u8];
    bad.extend_from_slice(&100u32.to_be_bytes());
    bad.extend_from_slice(b"short");
    assert_eq!(parse_frame(&bad).err(), Some(Error::BadFrame));
    assert_eq!(decrypt_frame(&key, &bad).err(), Some(Error::BadFrame));
}

#[test]
fn frame_layout_is_exact() {
    // [flag | w_len BE | w | p_len BE | blob | aead]
    let w = b"AB".to_vec();
    let blob = b"xyz".to_vec();
    let aead = b"tail".to_vec();
    let frame = build_frame(&w, Some(&blob), &aead).unwrap();
    let mut expect = vec![1u8, 0, 0, 0, 2];
    expect.extend_from_slice(b"AB");
    expect.extend_from_slice(&[0, 0, 0, 3]);
    expect.extend_from_slice(b"xyz");
    expect.extend_from_slice(b"tail");
    assert_eq!(frame, expect);
}
