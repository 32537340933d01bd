//! The blind-signature pipeline: message derivation, blinding-factor
//! derivation, the blind transform, and the unblind-and-verify transform.

use crate::bignum::{
    be_value, bytes_eq, dec_digits, lemma_be_value_min_be, min_be, trim_be, u64_to_dec,
};
use crate::codec::{
    b64_encode, b64_of, b64url_text, bn_decode, bn_encode, decoded_value, decodes_nonempty,
    encoded_of,
};
use crate::errors::{CryptoError, CryptoResult};
use crate::hashing::{argon2_of, kdf, sha256, sha256_of};
use crate::modmath::{
    be_invm, be_is_prime, be_mulm, be_next_prime, be_powm, has_inverse, is_first_prime_from,
    is_prime, lemma_first_prime_unique, lemma_mod_inverse_unique, lemma_pow_nat_distributes,
    lemma_pow_nat_mod_noop, lemma_pow_nat_multiplies, lemma_pow_nat_one, mod_inverse, pow_nat,
};
use vstd::arithmetic::div_mod::{
    lemma_mod_bound, lemma_mul_mod_noop_general, lemma_mul_mod_noop_left,
    lemma_mul_mod_noop_right, lemma_small_mod,
};
use vstd::prelude::*;
use vstd::utf8::encode_utf8;

verus! {

/// Byte width of the message `m` (1024 bits).
pub const M_BYTES: usize = 128;

/// Byte width of the blinding-factor seed (512 bits).
pub const R_BYTES: usize = 64;

/// Byte width of the digest (256 bits).
pub const HASH_BYTES: usize = 32;

/// The key derivation accepts a (phrase, order number) pair exactly when the
/// order number, the salt, is at least 8 bytes of UTF-8 and neither input
/// exceeds the derivation's size limit.
pub open spec fn kdf_accepts(phrase: Seq<char>, order: Seq<char>) -> bool {
    &&& 8 <= encode_utf8(order).len() <= 0xFFFF_FFFF
    &&& encode_utf8(phrase).len() <= 0xFFFF_FFFF
}

/// The KDF-derived prefix of the message: all but the trailing digest.
pub open spec fn m_prefix_spec(phrase: Seq<char>, order: Seq<char>) -> Seq<u8> {
    argon2_of(encode_utf8(phrase), encode_utf8(order), (M_BYTES - HASH_BYTES) as nat)
}

/// The digest of the KDF-derived prefix: the trailing bytes of the message.
pub open spec fn m_suffix_spec(phrase: Seq<char>, order: Seq<char>) -> Seq<u8> {
    sha256_of(m_prefix_spec(phrase, order))
}

/// The message bytes: the KDF-derived prefix followed by its digest.
pub open spec fn m_bytes_spec(phrase: Seq<char>, order: Seq<char>) -> Seq<u8> {
    m_prefix_spec(phrase, order) + m_suffix_spec(phrase, order)
}

/// The message `m` as an integer.
pub open spec fn m_value(phrase: Seq<char>, order: Seq<char>) -> nat {
    be_value(m_bytes_spec(phrase, order))
}

/// The blinding-factor seed as an integer.
pub open spec fn r_seed(phrase: Seq<char>, order: Seq<char>) -> nat {
    be_value(argon2_of(encode_utf8(phrase), encode_utf8(order), R_BYTES as nat))
}

/// The blinding factor `r`: the smallest prime at or above the seed.
pub open spec fn r_value(phrase: Seq<char>, order: Seq<char>) -> nat {
    choose|r: nat| is_first_prime_from(r_seed(phrase, order), r)
}

/// The encoded message token that `get_m_encode` returns: the full
/// fixed-width message buffer, never shortened, so the token always decodes
/// to exactly `M_BYTES` bytes.
pub open spec fn message_token_spec(phrase: Seq<char>, order: Seq<char>) -> Seq<char> {
    b64_of(m_bytes_spec(phrase, order))
}

/// Derive the message `m` from the phrase and the order number: a KDF-derived
/// prefix of `M_BYTES - HASH_BYTES` bytes, followed by the digest of that
/// prefix. Fails with `KdfError` exactly when the key derivation rejects the
/// pair.
pub fn get_m(phrase: &str, order_no: &str) -> (r: CryptoResult<Vec<u8>>)
    ensures
        match r {
            Ok(v) => kdf_accepts(phrase@, order_no@) && v@ == m_bytes_spec(phrase@, order_no@)
                && v@.len() == M_BYTES,
            Err(e) => e matches CryptoError::KdfError && !kdf_accepts(phrase@, order_no@),
        },
{
    match kdf(phrase, order_no, (M_BYTES - HASH_BYTES) as u32) {
        None => Err(CryptoError::KdfError),
        Some(mut m) => {
            let d = sha256(m.as_slice());
            let ghost prefix = m@;
            let mut i: usize = 0;
            while i < d.len()
                invariant
                    0 <= i <= d@.len(),
                    m@ =~= prefix + d@.take(i as int),
                decreases d@.len() - i,
            {
                m.push(d[i]);
                i = i + 1;
            }
            proof {
                assert(d@.take(d@.len() as int) =~= d@);
                assert(m@ =~= m_bytes_spec(phrase@, order_no@));
            }
            Ok(m)
        },
    }
}

/// Derive the blinding factor `r` from the phrase and the order number: the
/// smallest prime at or above the KDF-derived `R_BYTES`-byte seed — the seed
/// itself when it is prime, the next prime otherwise. The result is prime,
/// and it is reproducible: it is a function of the pair alone. Fails with
/// `KdfError` exactly when the key derivation rejects the pair; num-prime's
/// search cannot overflow on big integers, so the `NextPrimeNotFound` branch
/// is never taken.
pub fn get_r(phrase: &str, order_no: &str) -> (r: CryptoResult<Vec<u8>>)
    ensures
        match r {
            Ok(v) => {
                &&& kdf_accepts(phrase@, order_no@)
                &&& be_value(v@) == r_value(phrase@, order_no@)
                &&& is_first_prime_from(r_seed(phrase@, order_no@), be_value(v@))
                &&& is_prime(be_value(v@))
                &&& v@ == min_be(be_value(v@))
            },
            Err(e) => e matches CryptoError::KdfError && !kdf_accepts(phrase@, order_no@),
        },
{
    match kdf(phrase, order_no, R_BYTES as u32) {
        None => Err(CryptoError::KdfError),
        Some(base) => {
            if be_is_prime(base.as_slice()) {
                let v = trim_be(base.as_slice());
                proof {
                    let seed = r_seed(phrase@, order_no@);
                    lemma_be_value_min_be(seed);
                    assert(is_first_prime_from(seed, be_value(v@)));
                    lemma_first_prime_unique(seed, r_value(phrase@, order_no@), be_value(v@));
                }
                Ok(v)
            } else {
                match be_next_prime(base.as_slice()) {
                    Some(v) => {
                        proof {
                            let seed = r_seed(phrase@, order_no@);
                            assert(is_first_prime_from(seed, be_value(v@))) by {
                                assert(forall|k: nat|
                                    seed <= k < be_value(v@) ==> !is_prime(k)) by {
                                    assert(!is_prime(seed));
                                }
                            }
                            lemma_first_prime_unique(
                                seed,
                                r_value(phrase@, order_no@),
                                be_value(v@),
                            );
                        }
                        Ok(v)
                    },
                    None => Err(CryptoError::NextPrimeNotFound),
                }
            }
        },
    }
}

/// Derive the encoded message token: the full `M_BYTES`-byte message `m`,
/// encoded as base64url text without padding. The fixed-width buffer is
/// encoded as it stands — leading zero bytes included — so the token always
/// decodes to exactly `M_BYTES` bytes. Deterministic: the result is a
/// function of the (order number, phrase) pair alone. Fails with `KdfError`
/// exactly when the key derivation rejects the pair.
pub fn get_m_encode(order_no: String, phrase: String) -> (r: CryptoResult<String>)
    ensures
        match r {
            Ok(t) => kdf_accepts(phrase@, order_no@) && t@ == message_token_spec(
                phrase@,
                order_no@,
            ) && b64url_text(t@),
            Err(e) => e matches CryptoError::KdfError && !kdf_accepts(phrase@, order_no@),
        },
{
    match get_m(phrase.as_str(), order_no.as_str()) {
        Ok(m) => Ok(b64_encode(m.as_slice())),
        Err(e) => Err(e),
    }
}

/// Both key texts decode to nonempty byte strings, and the modulus is not
/// zero.
pub open spec fn keys_decode(nt: Seq<char>, et: Seq<char>) -> bool {
    &&& decodes_nonempty(nt)
    &&& decodes_nonempty(et)
    &&& decoded_value(nt) >= 1
}

/// The blinded message as an integer: `m * r^e mod n`.
pub open spec fn blind_value(phrase: Seq<char>, order: Seq<char>, n: nat, e: nat) -> nat {
    (m_value(phrase, order) * pow_nat(r_value(phrase, order), e)) % n
}

/// Compute the blinded message `m * r^e mod n` and return it encoded.
/// Fails with `DecodingError` exactly when a key text is not base64url
/// without padding, decodes to an empty byte string, or the modulus decodes
/// to zero (there is no reduction modulo zero), and with `KdfError` exactly
/// when the key derivation rejects the (phrase, order number) pair.
pub fn get_blind_token(order_no: String, phrase: String, n: String, e: String) -> (r:
    CryptoResult<String>)
    ensures
        match r {
            Ok(t) => {
                &&& keys_decode(n@, e@)
                &&& kdf_accepts(phrase@, order_no@)
                &&& t@ == encoded_of(
                    blind_value(phrase@, order_no@, decoded_value(n@), decoded_value(e@)),
                )
                &&& b64url_text(t@)
            },
            Err(er) => match er {
                CryptoError::DecodingError => !keys_decode(n@, e@),
                CryptoError::KdfError => keys_decode(n@, e@) && !kdf_accepts(
                    phrase@,
                    order_no@,
                ),
                _ => false,
            },
        },
{
    let n_b = match bn_decode(n.as_str()) {
        Ok(b) => b,
        Err(er) => {
            return Err(er);
        },
    };
    let e_b = match bn_decode(e.as_str()) {
        Ok(b) => b,
        Err(er) => {
            return Err(er);
        },
    };
    let n_can = trim_be(n_b.as_slice());
    proof {
        lemma_be_value_min_be(be_value(n_b@));
    }
    if n_can.len() == 1 && n_can[0] == 0u8 {
        proof {
            let z = seq![0u8];
            assert(n_can@ =~= z);
            assert(z.drop_last() =~= Seq::<u8>::empty());
            assert(be_value(Seq::<u8>::empty()) == 0);
            assert(be_value(z) == be_value(z.drop_last()) * 256 + z.last() as nat);
            assert(be_value(z) == 0);
            assert(be_value(n_b@) == 0);
        }
        return Err(CryptoError::DecodingError);
    }
    proof {
        assert(be_value(n_b@) >= 1) by {
            if be_value(n_b@) == 0 {
                assert(n_can@ == min_be(0));
                assert(n_can@.len() == 1 && n_can@[0] == 0);
            }
        }
    }
    let m = match get_m(phrase.as_str(), order_no.as_str()) {
        Ok(v) => v,
        Err(er) => {
            return Err(er);
        },
    };
    let r_bytes = match get_r(phrase.as_str(), order_no.as_str()) {
        Ok(v) => v,
        Err(er) => {
            return Err(er);
        },
    };
    let re = be_powm(r_bytes.as_slice(), e_b.as_slice(), n_b.as_slice());
    let blind = be_mulm(m.as_slice(), re.as_slice(), n_b.as_slice());
    let out = bn_encode(blind.as_slice());
    proof {
        let nv = decoded_value(n@);
        let ev = decoded_value(e@);
        let mv = m_value(phrase@, order_no@);
        let rv = r_value(phrase@, order_no@);
        let p = pow_nat(rv, ev);
        lemma_be_value_min_be(p % nv);
        assert(be_value(re@) == p % nv);
        lemma_mul_mod_noop_right(mv as int, p as int, nv as int);
        assert((mv * (p % nv)) % nv == (mv * p) % nv);
        lemma_be_value_min_be((mv * (p % nv)) % nv);
        assert(be_value(blind@) == blind_value(phrase@, order_no@, nv, ev));
    }
    Ok(out)
}

/// Determinism: the message token is a function of the (phrase, order
/// number) pair alone, so any two results that meet `get_m_encode`'s
/// contract for the same pair are identical, however far apart the calls.
pub proof fn lemma_message_token_deterministic(
    phrase: Seq<char>,
    order: Seq<char>,
    t1: Seq<char>,
    t2: Seq<char>,
)
    requires
        t1 == message_token_spec(phrase, order),
        t2 == message_token_spec(phrase, order),
    ensures
        t1 == t2,
{
}

/// Message structure: the message is `M_BYTES` bytes, and its trailing
/// `HASH_BYTES` bytes are the digest of its leading bytes. The two length
/// premises are what the digest and the key derivation ensure of every
/// result.
pub proof fn lemma_message_structure(phrase: Seq<char>, order: Seq<char>)
    requires
        m_prefix_spec(phrase, order).len() == (M_BYTES - HASH_BYTES) as nat,
        m_suffix_spec(phrase, order).len() == HASH_BYTES as nat,
    ensures
        m_bytes_spec(phrase, order).len() == M_BYTES as nat,
        m_bytes_spec(phrase, order).subrange(
            (M_BYTES - HASH_BYTES) as int,
            M_BYTES as int,
        ) == sha256_of(
            m_bytes_spec(phrase, order).subrange(0, (M_BYTES - HASH_BYTES) as int),
        ),
{
    let p = m_prefix_spec(phrase, order);
    let d = m_suffix_spec(phrase, order);
    let m = m_bytes_spec(phrase, order);
    assert(m.subrange(0, (M_BYTES - HASH_BYTES) as int) =~= p);
    assert(m.subrange((M_BYTES - HASH_BYTES) as int, M_BYTES as int) =~= d);
}

/// The goods identifier's binding tag as an integer: the digest of its
/// decimal text.
pub open spec fn goods_digest(g: u64) -> nat {
    be_value(sha256_of(dec_digits(g as nat)))
}

/// The signature with the blinding factor removed:
/// `sign_blind_token * r^-1 mod n`.
pub open spec fn unblinded_value(st: nat, phrase: Seq<char>, order: Seq<char>, n: nat) -> nat {
    (st * mod_inverse(r_value(phrase, order), n)) % n
}

/// The verification check value: the unblinded signature raised to the
/// public exponent.
pub open spec fn check_value(
    st: nat,
    phrase: Seq<char>,
    order: Seq<char>,
    n: nat,
    e: nat,
) -> nat {
    pow_nat(unblinded_value(st, phrase, order, n), e) % n
}

/// The value the check must equal: `m * digest(goods_id) mod n`.
pub open spec fn expected_value(phrase: Seq<char>, order: Seq<char>, g: u64, n: nat) -> nat {
    (m_value(phrase, order) * goods_digest(g)) % n
}

/// Finalizing succeeds exactly when every input decodes, the key derivation
/// accepts the pair, the blinding factor is invertible (trivially so for a
/// modulus of one), and the verification equation holds.
pub open spec fn finalize_ok_condition(
    st: Seq<char>,
    phrase: Seq<char>,
    order: Seq<char>,
    g: u64,
    nt: Seq<char>,
    et: Seq<char>,
) -> bool {
    let nv = decoded_value(nt);
    &&& keys_decode(nt, et)
    &&& decodes_nonempty(st)
    &&& kdf_accepts(phrase, order)
    &&& (nv == 1 || has_inverse(r_value(phrase, order), nv))
    &&& check_value(decoded_value(st), phrase, order, nv, decoded_value(et)) == expected_value(
        phrase,
        order,
        g,
        nv,
    )
}

/// The encoded token that a successful finalize returns: the check value,
/// which then equals `m * digest(goods_id) mod n`.
pub open spec fn finalize_token_spec(
    st: Seq<char>,
    phrase: Seq<char>,
    order: Seq<char>,
    nt: Seq<char>,
    et: Seq<char>,
) -> Seq<char> {
    encoded_of(
        check_value(decoded_value(st), phrase, order, decoded_value(nt), decoded_value(et)),
    )
}

/// Remove the blinding factor from the externally signed blinded token and
/// check the result against the goods identifier: recompute `m` and `r`,
/// form `sign_token = sign_blind_token * r^-1 mod n`, and accept exactly
/// when `sign_token^e mod n == m * digest(goods_id) mod n`, returning that
/// value encoded.
///
/// For the equation to hold, the external signer must have signed
/// `blind_m * digest(goods_id) mod n`, not `blind_m` alone: that contract on
/// the signer is a precondition of the protocol, not enforceable here.
///
/// Errors: `DecodingError` for key texts that are not base64url without
/// padding, decode to an empty byte string, or give a modulus of zero, and,
/// after the derivations, for a malformed or empty signed-token text;
/// `KdfError` when the key derivation rejects the
/// (phrase, order number) pair; `Unexpected` when the blinding factor has no
/// inverse modulo `n`; `SignTokenIllegal`, carrying the signed-token text,
/// when the verification equation fails.
pub fn deblind_sign_token(
    sign_blind_token_encode: String,
    order_no: String,
    phrase: String,
    goods_id: u64,
    n: String,
    e: String,
) -> (r: CryptoResult<String>)
    ensures
        match r {
            Ok(t) => finalize_ok_condition(
                sign_blind_token_encode@,
                phrase@,
                order_no@,
                goods_id,
                n@,
                e@,
            ) && t@ == finalize_token_spec(
                sign_blind_token_encode@,
                phrase@,
                order_no@,
                n@,
                e@,
            ) && b64url_text(t@),
            Err(er) => match er {
                CryptoError::DecodingError => !keys_decode(n@, e@) || (kdf_accepts(
                    phrase@,
                    order_no@,
                ) && !decodes_nonempty(sign_blind_token_encode@)),
                CryptoError::KdfError => keys_decode(n@, e@) && !kdf_accepts(phrase@, order_no@),
                CryptoError::Unexpected => keys_decode(n@, e@) && kdf_accepts(phrase@, order_no@)
                    && decodes_nonempty(sign_blind_token_encode@) && decoded_value(n@) >= 2
                    && !has_inverse(r_value(phrase@, order_no@), decoded_value(n@)),
                CryptoError::SignTokenIllegal(t) => t@ == sign_blind_token_encode@ && keys_decode(
                    n@,
                    e@,
                ) && kdf_accepts(phrase@, order_no@) && decodes_nonempty(sign_blind_token_encode@)
                    && (decoded_value(n@) == 1 || has_inverse(
                    r_value(phrase@, order_no@),
                    decoded_value(n@),
                )) && check_value(
                    decoded_value(sign_blind_token_encode@),
                    phrase@,
                    order_no@,
                    decoded_value(n@),
                    decoded_value(e@),
                ) != expected_value(phrase@, order_no@, goods_id, decoded_value(n@)),
                CryptoError::NextPrimeNotFound => false,
            },
        },
{
    let n_b = match bn_decode(n.as_str()) {
        Ok(b) => b,
        Err(er) => {
            return Err(er);
        },
    };
    let e_b = match bn_decode(e.as_str()) {
        Ok(b) => b,
        Err(er) => {
            return Err(er);
        },
    };
    let n_can = trim_be(n_b.as_slice());
    proof {
        lemma_be_value_min_be(be_value(n_b@));
    }
    if n_can.len() == 1 && n_can[0] == 0u8 {
        proof {
            let z = seq![0u8];
            assert(n_can@ =~= z);
            assert(z.drop_last() =~= Seq::<u8>::empty());
            assert(be_value(z) == be_value(z.drop_last()) * 256 + z.last() as nat);
            assert(be_value(z) == 0);
            assert(be_value(n_b@) == 0);
        }
        return Err(CryptoError::DecodingError);
    }
    proof {
        assert(be_value(n_b@) >= 1) by {
            if be_value(n_b@) == 0 {
                assert(n_can@ == min_be(0));
                assert(n_can@.len() == 1 && n_can@[0] == 0);
            }
        }
    }
    let m = match get_m(phrase.as_str(), order_no.as_str()) {
        Ok(v) => v,
        Err(er) => {
            return Err(er);
        },
    };
    let r_bytes = match get_r(phrase.as_str(), order_no.as_str()) {
        Ok(v) => v,
        Err(er) => {
            return Err(er);
        },
    };
    let s_b = match bn_decode(sign_blind_token_encode.as_str()) {
        Ok(b) => b,
        Err(er) => {
            return Err(er);
        },
    };
    let goods_dec = u64_to_dec(goods_id);
    let gd = sha256(goods_dec.as_slice());
    if n_can.len() == 1 && n_can[0] == 1u8 {
        // A modulus of one reduces every value to zero, so the check holds
        // trivially and the token is the encoding of zero.
        let mut z: Vec<u8> = Vec::new();
        z.push(0u8);
        let out = bn_encode(z.as_slice());
        proof {
            let o = seq![1u8];
            assert(n_can@ =~= o);
            assert(o.drop_last() =~= Seq::<u8>::empty());
            assert(be_value(o) == be_value(o.drop_last()) * 256 + o.last() as nat);
            assert(be_value(n_b@) == 1);
            assert(z@ =~= seq![0u8]);
            assert(seq![0u8].drop_last() =~= Seq::<u8>::empty());
            assert(be_value(z@) == be_value(z@.drop_last()) * 256 + z@.last() as nat);
            assert(be_value(z@) == 0);
            let stv = decoded_value(sign_blind_token_encode@);
            assert(unblinded_value(stv, phrase@, order_no@, 1) == 0);
            assert(check_value(stv, phrase@, order_no@, 1, decoded_value(e@)) == 0);
            assert(expected_value(phrase@, order_no@, goods_id, 1) == 0);
        }
        return Ok(out);
    }
    proof {
        assert(be_value(n_b@) >= 2) by {
            if be_value(n_b@) == 1 {
                assert(n_can@ == min_be(1));
                assert(min_be(1) =~= seq![1u8]);
                assert(n_can@.len() == 1 && n_can@[0] == 1);
            }
        }
    }
    let r_inv = match be_invm(r_bytes.as_slice(), n_b.as_slice()) {
        Some(v) => v,
        None => {
            return Err(CryptoError::Unexpected);
        },
    };
    proof {
        let nv = be_value(n_b@);
        let rv = r_value(phrase@, order_no@);
        assert(has_inverse(rv, nv));
        let w = mod_inverse(rv, nv);
        assert(w < nv && (rv * w) % nv == 1);
        lemma_mod_inverse_unique(rv, nv, w, be_value(r_inv@));
    }
    let sign_token = be_mulm(s_b.as_slice(), r_inv.as_slice(), n_b.as_slice());
    let design_token = be_powm(sign_token.as_slice(), e_b.as_slice(), n_b.as_slice());
    let expected = be_mulm(m.as_slice(), gd.as_slice(), n_b.as_slice());
    proof {
        let nv = be_value(n_b@);
        let stv = decoded_value(sign_blind_token_encode@);
        lemma_be_value_min_be((stv * be_value(r_inv@)) % nv);
        assert(be_value(sign_token@) == unblinded_value(stv, phrase@, order_no@, nv));
        lemma_be_value_min_be(
            pow_nat(be_value(sign_token@), be_value(e_b@)) % nv,
        );
        assert(be_value(design_token@) == check_value(
            stv,
            phrase@,
            order_no@,
            nv,
            decoded_value(e@),
        ));
        lemma_be_value_min_be((be_value(m@) * be_value(gd@)) % nv);
        assert(be_value(expected@) == expected_value(phrase@, order_no@, goods_id, nv));
    }
    if bytes_eq(design_token.as_slice(), expected.as_slice()) {
        let out = bn_encode(design_token.as_slice());
        Ok(out)
    } else {
        proof {
            let nv = be_value(n_b@);
            let stv = decoded_value(sign_blind_token_encode@);
            if check_value(stv, phrase@, order_no@, nv, decoded_value(e@)) == expected_value(
                phrase@,
                order_no@,
                goods_id,
                nv,
            ) {
                assert(design_token@ == expected@);
            }
        }
        Err(CryptoError::SignTokenIllegal(sign_blind_token_encode))
    }
}

/// Round trip: an honestly signed blinded token passes the finalize check.
///
/// If the external signer returns the `d`-th power modulo `n` of the blinded
/// message times the goods digest — the signer contract this protocol
/// assumes — and raising to `d` and then to `e` gives a value back modulo
/// `n` (the RSA keypair property, assumed here of the expected token and of
/// the blinding factor), then the value that `deblind_sign_token` checks
/// equals the expected `m * digest(goods_id) mod n`: finalizing accepts and
/// returns that value encoded.
pub proof fn lemma_round_trip(
    phrase: Seq<char>,
    order: Seq<char>,
    g: u64,
    n: nat,
    e: nat,
    d: nat,
    sv: nat,
)
    requires
        n >= 2,
        has_inverse(r_value(phrase, order), n),
        sv == pow_nat((blind_value(phrase, order, n, e) * goods_digest(g)) % n, d) % n,
        pow_nat(pow_nat(expected_value(phrase, order, g, n), d) % n, e) % n == expected_value(
            phrase,
            order,
            g,
            n,
        ),
        pow_nat(pow_nat(r_value(phrase, order), d) % n, e) % n == r_value(phrase, order) % n,
    ensures
        check_value(sv, phrase, order, n, e) == expected_value(phrase, order, g, n),
{
    let mv = m_value(phrase, order);
    let rv = r_value(phrase, order);
    let dg = goods_digest(g);
    let ex = expected_value(phrase, order, g, n);
    let iv = mod_inverse(rv, n);
    let rp = pow_nat(rv, e);
    let bv = blind_value(phrase, order, n, e);
    let bd = (bv * dg) % n;
    let ni = n as int;
    assert(iv < n && (rv * iv) % n == 1);
    // The check value, over the unreduced product of signature and inverse.
    lemma_pow_nat_mod_noop(sv * iv, e, n);
    assert(check_value(sv, phrase, order, n, e) == pow_nat(sv * iv, e) % n);
    lemma_pow_nat_distributes(sv, iv, e);
    assert(pow_nat(sv * iv, e) == pow_nat(sv, e) * pow_nat(iv, e));
    // The signature raised to e: collapse the signer's power.
    lemma_pow_nat_mod_noop(pow_nat(bd, d), e, n);
    assert(pow_nat(sv, e) % n == pow_nat(pow_nat(bd, d), e) % n);
    lemma_pow_nat_multiplies(bd, d, e);
    assert(pow_nat(pow_nat(bd, d), e) == pow_nat(bd, d * e));
    // The signed base is m * r^e * digest, modulo n.
    lemma_pow_nat_mod_noop(bv * dg, d * e, n);
    lemma_pow_nat_mod_noop(mv * rp * dg, d * e, n);
    assert((bv * dg) % n == (mv * rp * dg) % n) by {
        lemma_mul_mod_noop_left((mv * rp) as int, dg as int, ni);
    }
    assert(pow_nat(bd, d * e) % n == pow_nat(mv * rp * dg, d * e) % n);
    // Split the base into (m * digest) and r^e.
    assert(mv * rp * dg == (mv * dg) * rp) by (nonlinear_arith);
    lemma_pow_nat_distributes(mv * dg, rp, d * e);
    assert(pow_nat(mv * rp * dg, d * e) == pow_nat(mv * dg, d * e) * pow_nat(rp, d * e));
    // The (m * digest) part comes back to the expected value.
    lemma_pow_nat_mod_noop(mv * dg, d * e, n);
    lemma_pow_nat_multiplies(ex, d, e);
    lemma_pow_nat_mod_noop(pow_nat(ex, d), e, n);
    assert(pow_nat(mv * dg, d * e) % n == ex);
    // The r^e part survives unchanged.
    lemma_pow_nat_multiplies(rv, d, e);
    lemma_pow_nat_mod_noop(pow_nat(rv, d), e, n);
    assert(pow_nat(rv, d * e) % n == rv % n);
    lemma_pow_nat_multiplies(rv, e, d * e);
    assert(e * (d * e) == (d * e) * e) by (nonlinear_arith);
    lemma_pow_nat_multiplies(rv, d * e, e);
    assert(pow_nat(rp, d * e) == pow_nat(pow_nat(rv, d * e), e));
    lemma_pow_nat_mod_noop(pow_nat(rv, d * e), e, n);
    lemma_pow_nat_mod_noop(rv, e, n);
    assert(pow_nat(rp, d * e) % n == rp % n);
    // Recombine the two parts under the modulus.
    lemma_mul_mod_noop_general(
        pow_nat(mv * dg, d * e) as int,
        pow_nat(rp, d * e) as int,
        ni,
    );
    lemma_mul_mod_noop_right(ex as int, rp as int, ni);
    assert(pow_nat(sv, e) % n == (ex * rp) % n);
    // Fold in the inverse: r^e * iv^e is (r * iv)^e, which is one.
    lemma_mul_mod_noop_left(pow_nat(sv, e) as int, pow_nat(iv, e) as int, ni);
    lemma_mul_mod_noop_left((ex * rp) as int, pow_nat(iv, e) as int, ni);
    assert((pow_nat(sv, e) * pow_nat(iv, e)) % n == ((ex * rp) * pow_nat(iv, e)) % n);
    assert((ex * rp) * pow_nat(iv, e) == ex * (rp * pow_nat(iv, e))) by (nonlinear_arith);
    lemma_pow_nat_distributes(rv, iv, e);
    assert(rp * pow_nat(iv, e) == pow_nat(rv * iv, e));
    lemma_mul_mod_noop_right(ex as int, pow_nat(rv * iv, e) as int, ni);
    lemma_pow_nat_mod_noop(rv * iv, e, n);
    lemma_pow_nat_one(e);
    lemma_small_mod(1, n);
    assert(pow_nat(rv * iv, e) % n == 1);
    lemma_mod_bound((mv * dg) as int, ni);
    lemma_small_mod(ex, n);
    assert(check_value(sv, phrase, order, n, e) == ex);
}

} // verus!
