use blind_token::blind::{get_m, get_m_encode, get_r};
use blind_token::codec::bn_decode;
use blind_token::errors::CryptoError;
use num_bigint::BigUint;
use num_prime::nt_funcs::is_prime;
use sha2::{Digest, Sha256};

const ORDER: &str = "ORDER-2024-0001";
const PHRASE: &str = "correct horse battery staple";

#[test]
fn message_token_is_deterministic() {
    let t1 = get_m_encode(ORDER.to_string(), PHRASE.to_string()).unwrap();
    let t2 = get_m_encode(ORDER.to_string(), PHRASE.to_string()).unwrap();
    assert_eq!(t1, t2);
}

#[test]
fn message_token_depends_on_phrase_and_order() {
    let t = get_m_encode(ORDER.to_string(), PHRASE.to_string()).unwrap();
    let other_phrase = get_m_encode(ORDER.to_string(), "correct horse battery stapler".to_string())
        .unwrap();
    let other_order = get_m_encode("ORDER-2024-0002".to_string(), PHRASE.to_string()).unwrap();
    assert_ne!(t, other_phrase);
    assert_ne!(t, other_order);
}

#[test]
fn message_has_fixed_width_and_digest_suffix() {
    let token = get_m_encode(ORDER.to_string(), PHRASE.to_string()).unwrap();
    let bytes = bn_decode(&token).unwrap();
    assert_eq!(bytes.len(), 128);
    let digest = Sha256::digest(&bytes[..96]);
    assert_eq!(&bytes[96..], digest.as_slice());
}

#[test]
fn message_prefix_is_the_argon2_derivation() {
    let m = get_m(PHRASE, ORDER).unwrap();
    let mut config = argon2::Config::default();
    config.hash_length = 96;
    let prefix = argon2::hash_raw(PHRASE.as_bytes(), ORDER.as_bytes(), &config).unwrap();
    assert_eq!(&m[..96], prefix.as_slice());
}

#[test]
fn blinding_factor_is_the_first_prime_from_its_seed() {
    let r = get_r(PHRASE, ORDER).unwrap();
    let r_int = BigUint::from_bytes_be(&r);
    let mut config = argon2::Config::default();
    config.hash_length = 64;
    let seed = argon2::hash_raw(PHRASE.as_bytes(), ORDER.as_bytes(), &config).unwrap();
    let seed_int = BigUint::from_bytes_be(&seed);
    assert!(r_int >= seed_int);
    assert!(is_prime(&r_int, None).probably());
    // The smallest such prime: none lies between the seed and the result.
    if seed_int < r_int {
        assert!(!is_prime(&seed_int, None).probably());
    }
}

#[test]
fn blinding_factor_is_deterministic() {
    let r1 = get_r(PHRASE, ORDER).unwrap();
    let r2 = get_r(PHRASE, ORDER).unwrap();
    assert_eq!(r1, r2);
}

#[test]
fn diagnostic_hook_discards_its_input() {
    // The diagnostic channel defaults to off; handing it a line must have
    // no effect and must not panic.
    blind_token::errors::console_log("wasm get_blind_token: m=, r=");
}

#[test]
fn short_order_number_is_rejected_by_the_kdf() {
    // The derivation's salt minimum is 8 bytes, so a 5-byte order number is
    // rejected, deterministically, rather than derived from.
    let r1 = get_m_encode("ORD-1".to_string(), PHRASE.to_string());
    let r2 = get_m_encode("ORD-1".to_string(), PHRASE.to_string());
    assert!(matches!(r1, Err(CryptoError::KdfError)));
    assert!(matches!(r2, Err(CryptoError::KdfError)));
}
