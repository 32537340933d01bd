use blind_token::blind::{deblind_sign_token, get_blind_token, get_m_encode, get_r};
use blind_token::codec::{bn_decode, bn_encode};
use blind_token::errors::CryptoError;
use num_bigint::BigUint;
use num_modular::ModularUnaryOps;
use num_prime::nt_funcs::next_prime;
use sha2::{Digest, Sha256};

const ORDER: &str = "ORDER-2024-0001";
const PHRASE: &str = "correct horse battery staple";

/// A fixed RSA keypair for the tests: two deterministic primes near 2^519,
/// so the 1040-bit modulus exceeds the 1024-bit message and both factors
/// exceed the 512-bit blinding factor.
fn test_keypair() -> (BigUint, BigUint, BigUint) {
    let base = BigUint::from(1u32) << 519usize;
    let p = next_prime(&(&base + BigUint::from(12345u32)), None).unwrap();
    let q = next_prime(&(&base + BigUint::from(777777u32)), None).unwrap();
    let n = &p * &q;
    let e = BigUint::from(65537u32);
    let phi = (&p - 1u32) * (&q - 1u32);
    let d = e.clone().invm(&phi).unwrap();
    (n, e, d)
}

fn goods_digest(g: u64) -> BigUint {
    BigUint::from_bytes_be(&Sha256::digest(g.to_string().as_bytes()))
}

fn encode_int(x: &BigUint) -> String {
    bn_encode(&x.to_bytes_be())
}

/// Sign as the external collaborator must: raise `blind_m * digest(goods)`
/// to the private exponent.
fn external_sign(blind_token: &str, g: u64, n: &BigUint, d: &BigUint) -> String {
    let blind_m = BigUint::from_bytes_be(&bn_decode(blind_token).unwrap());
    let signed = ((&blind_m * goods_digest(g)) % n).modpow(d, n);
    encode_int(&signed)
}

#[test]
fn round_trip_with_real_keypair() {
    let (n, e, d) = test_keypair();
    let (n_t, e_t) = (encode_int(&n), encode_int(&e));
    let g: u64 = 42;

    let blind_t =
        get_blind_token(ORDER.to_string(), PHRASE.to_string(), n_t.clone(), e_t.clone()).unwrap();
    let sig_t = external_sign(&blind_t, g, &n, &d);
    let token = deblind_sign_token(
        sig_t,
        ORDER.to_string(),
        PHRASE.to_string(),
        g,
        n_t.clone(),
        e_t.clone(),
    )
    .unwrap();

    // The validated token is m * digest(goods) mod n.
    let m_t = get_m_encode(ORDER.to_string(), PHRASE.to_string()).unwrap();
    let m = BigUint::from_bytes_be(&bn_decode(&m_t).unwrap());
    let expected = (&m * goods_digest(g)) % &n;
    assert_eq!(token, encode_int(&expected));
}

/// Replace the character at `idx` with a different base64url character.
fn mutate_at(text: &str, idx: usize) -> String {
    let mut bytes = text.as_bytes().to_vec();
    bytes[idx] = if bytes[idx] == b'A' { b'B' } else { b'A' };
    String::from_utf8(bytes).unwrap()
}

#[test]
fn tampered_signature_is_rejected() {
    let (n, e, d) = test_keypair();
    let (n_t, e_t) = (encode_int(&n), encode_int(&e));
    let g: u64 = 42;

    let blind_t =
        get_blind_token(ORDER.to_string(), PHRASE.to_string(), n_t.clone(), e_t.clone()).unwrap();
    let sig_t = external_sign(&blind_t, g, &n, &d);

    for idx in [0, sig_t.len() / 2] {
        let bad = mutate_at(&sig_t, idx);
        match deblind_sign_token(
            bad.clone(),
            ORDER.to_string(),
            PHRASE.to_string(),
            g,
            n_t.clone(),
            e_t.clone(),
        ) {
            Err(CryptoError::SignTokenIllegal(carried)) => assert_eq!(carried, bad),
            other => panic!("expected SignTokenIllegal, got {:?}", other),
        }
    }
}

#[test]
fn different_goods_id_is_rejected() {
    let (n, e, d) = test_keypair();
    let (n_t, e_t) = (encode_int(&n), encode_int(&e));
    let g: u64 = 42;

    let blind_t =
        get_blind_token(ORDER.to_string(), PHRASE.to_string(), n_t.clone(), e_t.clone()).unwrap();
    let sig_t = external_sign(&blind_t, g, &n, &d);
    match deblind_sign_token(
        sig_t,
        ORDER.to_string(),
        PHRASE.to_string(),
        g + 1,
        n_t.clone(),
        e_t.clone(),
    ) {
        Err(CryptoError::SignTokenIllegal(_)) => {}
        other => panic!("expected SignTokenIllegal, got {:?}", other),
    }
}

#[test]
fn malformed_key_text_is_rejected() {
    let r = get_blind_token(
        ORDER.to_string(),
        PHRASE.to_string(),
        "not base64!".to_string(),
        "AQAB".to_string(),
    );
    assert!(matches!(r, Err(CryptoError::DecodingError)));
}

#[test]
fn empty_key_text_is_rejected() {
    // "" decodes to an empty byte string: no big integer was supplied.
    let r = get_blind_token(
        ORDER.to_string(),
        PHRASE.to_string(),
        "".to_string(),
        "AQAB".to_string(),
    );
    assert!(matches!(r, Err(CryptoError::DecodingError)));
    let r2 = get_blind_token(
        ORDER.to_string(),
        PHRASE.to_string(),
        "AQID".to_string(),
        "".to_string(),
    );
    assert!(matches!(r2, Err(CryptoError::DecodingError)));
}

#[test]
fn zero_modulus_is_rejected() {
    let r = get_blind_token(
        ORDER.to_string(),
        PHRASE.to_string(),
        "AA".to_string(),
        "AQAB".to_string(),
    );
    assert!(matches!(r, Err(CryptoError::DecodingError)));
    let r2 = deblind_sign_token(
        "AQID".to_string(),
        ORDER.to_string(),
        PHRASE.to_string(),
        7,
        "AAAA".to_string(),
        "AQAB".to_string(),
    );
    assert!(matches!(r2, Err(CryptoError::DecodingError)));
}

#[test]
fn modulus_of_one_reduces_everything_to_zero() {
    // "AQ" encodes the value 1. Modulo 1 every value is 0, so both
    // operations return the encoding of zero rather than fail.
    let blind = get_blind_token(
        ORDER.to_string(),
        PHRASE.to_string(),
        "AQ".to_string(),
        "AQAB".to_string(),
    )
    .unwrap();
    assert_eq!(blind, "AA");
    let token = deblind_sign_token(
        "AQID".to_string(),
        ORDER.to_string(),
        PHRASE.to_string(),
        7,
        "AQ".to_string(),
        "AQAB".to_string(),
    )
    .unwrap();
    assert_eq!(token, "AA");
}

#[test]
fn uninvertible_blinding_factor_is_reported() {
    // A modulus sharing a factor with the blinding factor leaves r without
    // an inverse: the square of r itself.
    let r = get_r(PHRASE, ORDER).unwrap();
    let r_int = BigUint::from_bytes_be(&r);
    let n_bad = &r_int * &r_int;
    let out = deblind_sign_token(
        "AQID".to_string(),
        ORDER.to_string(),
        PHRASE.to_string(),
        7,
        encode_int(&n_bad),
        "AQAB".to_string(),
    );
    assert!(matches!(out, Err(CryptoError::Unexpected)));
}

#[test]
fn short_order_number_fails_before_any_arithmetic() {
    let (n, e, _) = test_keypair();
    let out = get_blind_token(
        "ORD-1".to_string(),
        PHRASE.to_string(),
        encode_int(&n),
        encode_int(&e),
    );
    assert!(matches!(out, Err(CryptoError::KdfError)));
}
