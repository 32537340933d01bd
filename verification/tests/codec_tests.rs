use blind_token::codec::{bn_decode, bn_encode};
use blind_token::errors::CryptoError;
use num_bigint::BigUint;

/// A tiny deterministic pseudorandom generator, so the round-trip sweep
/// needs no outside randomness.
fn xorshift(state: &mut u64) -> u64 {
    let mut x = *state;
    x ^= x << 13;
    x ^= x >> 7;
    x ^= x << 17;
    *state = x;
    x
}

#[test]
fn codec_round_trip_small_values() {
    for v in 0u32..300 {
        let bytes = BigUint::from(v).to_bytes_be();
        let text = bn_encode(&bytes);
        let back = bn_decode(&text).unwrap();
        assert_eq!(BigUint::from_bytes_be(&back), BigUint::from(v));
    }
}

#[test]
fn codec_round_trip_random_values() {
    let mut state: u64 = 0x9e3779b97f4a7c15;
    for i in 0..1000 {
        let len = (i % 97) + 1;
        let mut bytes = Vec::with_capacity(len);
        for _ in 0..len {
            bytes.push((xorshift(&mut state) & 0xff) as u8);
        }
        let value = BigUint::from_bytes_be(&bytes);
        let text = bn_encode(&bytes);
        let back = bn_decode(&text).unwrap();
        assert_eq!(BigUint::from_bytes_be(&back), value);
        // The decoder returns the minimal form, as num-bigint prints it.
        assert_eq!(back, value.to_bytes_be());
    }
}

#[test]
fn codec_zero_encodes_to_one_zero_byte() {
    let text = bn_encode(&[]);
    assert_eq!(text, "AA");
    let text2 = bn_encode(&[0, 0, 0]);
    assert_eq!(text2, "AA");
    let back = bn_decode("AA").unwrap();
    assert_eq!(back, vec![0u8]);
}

#[test]
fn codec_strips_leading_zeros() {
    let with_zeros = [0u8, 0, 1, 2];
    let minimal = [1u8, 2];
    assert_eq!(bn_encode(&with_zeros), bn_encode(&minimal));
}

#[test]
fn codec_rejects_invalid_text() {
    for bad in ["!!!!", "a b", "ab=", "A", "\u{00e9}"] {
        match bn_decode(bad) {
            Err(CryptoError::DecodingError) => {}
            other => panic!("expected DecodingError for {:?}, got {:?}", bad, other),
        }
    }
}

#[test]
fn codec_rejects_empty_text() {
    // The empty text is valid base64, but decodes to an empty byte string,
    // which is no big integer.
    match bn_decode("") {
        Err(CryptoError::DecodingError) => {}
        other => panic!("expected DecodingError for empty text, got {:?}", other),
    }
}

#[test]
fn codec_emits_only_base64url_characters() {
    let mut bytes: Vec<u8> = Vec::new();
    for i in 0u32..256 {
        bytes.push(i as u8);
    }
    let text = bn_encode(&bytes);
    for c in text.chars() {
        assert!(c.is_ascii_alphanumeric() || c == '-' || c == '_');
    }
}

#[test]
fn codec_matches_known_vector() {
    // 0x00010203 -> minimal bytes 01 02 03 -> base64url "AQID".
    let text = bn_encode(&[0, 1, 2, 3]);
    assert_eq!(text, "AQID");
    assert_eq!(bn_decode("AQID").unwrap(), vec![1u8, 2, 3]);
}
