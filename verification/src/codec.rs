//! The big-integer codec: arbitrary-precision unsigned integers as
//! base64url text without padding, over minimal big-endian bytes.

use crate::bignum::{be_value, lemma_be_value_min_be, min_be, trim_be};
use crate::errors::{CryptoError, CryptoResult};
use base64::Engine;
use vstd::prelude::*;

verus! {

/// What base64url encoding without padding returns for a byte string.
pub uninterp spec fn b64_of(b: Seq<u8>) -> Seq<char>;

/// A text is decodable exactly when it is the encoding of some byte string.
pub open spec fn b64_valid(t: Seq<char>) -> bool {
    exists|b: Seq<u8>| b64_of(b) == t
}

/// The byte string a decodable text encodes.
pub open spec fn b64_bytes(t: Seq<char>) -> Seq<u8> {
    choose|b: Seq<u8>| b64_of(b) == t
}

/// The value a decodable text stands for.
pub open spec fn decoded_value(t: Seq<char>) -> nat {
    be_value(b64_bytes(t))
}

/// The text that encodes a value.
pub open spec fn encoded_of(n: nat) -> Seq<char> {
    b64_of(min_be(n))
}

/// `d` is the one byte string whose encoding is `t`: the decoder's strict
/// (canonical) mode guarantees this of what it returns.
pub open spec fn unique_preimage(d: Seq<u8>, t: Seq<char>) -> bool {
    b64_of(d) == t && (forall|c: Seq<u8>| b64_of(c) == t ==> c == d)
}

/// A text decodes to a nonempty byte string: what a big integer at the
/// boundary must arrive as.
pub open spec fn decodes_nonempty(t: Seq<char>) -> bool {
    b64_valid(t) && b64_bytes(t).len() >= 1
}

/// A character of the base64url alphabet.
pub open spec fn b64url_char(c: char) -> bool {
    ||| 'A' <= c && c <= 'Z'
    ||| 'a' <= c && c <= 'z'
    ||| '0' <= c && c <= '9'
    ||| c == '-'
    ||| c == '_'
}

/// Every character of a text is in the base64url alphabet; in particular the
/// text carries no padding character.
pub open spec fn b64url_text(t: Seq<char>) -> bool {
    forall|i: int| 0 <= i < t.len() ==> #[trigger] b64url_char(t[i])
}

/// Relies on base64's `URL_SAFE_NO_PAD` engine: the encoding is a function
/// of the input bytes alone, drawn from the base64url alphabet
/// `[A-Za-z0-9_-]` with no `=` padding.
#[verifier::external_body]
pub(crate) fn b64_encode(b: &[u8]) -> (r: String)
    ensures
        r@ == b64_of(b@),
        b64url_text(r@),
{
    base64::engine::general_purpose::URL_SAFE_NO_PAD.encode(b)
}

/// Relies on base64's `URL_SAFE_NO_PAD` engine: decoding succeeds exactly on
/// texts that the engine itself would produce (it rejects padding characters,
/// characters outside the alphabet, lengths of 1 mod 4, and nonzero trailing
/// bits), and then returns the one byte string whose encoding is the input.
#[verifier::external_body]
pub(crate) fn b64_decode(s: &str) -> (r: Option<Vec<u8>>)
    ensures
        match r {
            Some(b) => b64_of(b@) == s@ && (forall|c: Seq<u8>| b64_of(c) == s@ ==> c == b@),
            None => forall|c: Seq<u8>| b64_of(c) != s@,
        },
{
    match base64::engine::general_purpose::URL_SAFE_NO_PAD.decode(s) {
        Ok(v) => Some(v),
        Err(_) => None,
    }
}

/// Encode a big-endian byte string's value as base64url text without
/// padding, over the value's minimal representation.
pub fn bn_encode(v: &[u8]) -> (r: String)
    ensures
        r@ == encoded_of(be_value(v@)),
        b64url_text(r@),
{
    let t = trim_be(v);
    b64_encode(t.as_slice())
}

/// Decode base64url text without padding into the big-endian byte string it
/// encodes. Fails with `DecodingError` exactly on texts that are not such an
/// encoding, and on the empty byte string, where a big integer was expected.
pub fn bn_decode(s: &str) -> (r: CryptoResult<Vec<u8>>)
    ensures
        match r {
            Ok(b) => decodes_nonempty(s@) && b@ == b64_bytes(s@) && unique_preimage(b@, s@),
            Err(e) => e matches CryptoError::DecodingError && !decodes_nonempty(s@),
        },
{
    match b64_decode(s) {
        Some(b) => {
            proof {
                assert(b64_of(b@) == s@);
                let w = b64_bytes(s@);
                assert(b64_of(w) == s@);
                assert(w == b@);
            }
            if b.len() == 0 {
                Err(CryptoError::DecodingError)
            } else {
                Ok(b)
            }
        },
        None => Err(CryptoError::DecodingError),
    }
}

/// Codec round trip: bytes that satisfy the decoder's contract on the
/// encoding of a value `n` are exactly the minimal representation of `n`,
/// so decoding the encoding of any value gives that value back.
pub proof fn lemma_codec_round_trip(n: nat, d: Seq<u8>)
    requires
        unique_preimage(d, encoded_of(n)),
    ensures
        d == min_be(n),
        be_value(d) == n,
{
    assert(b64_of(min_be(n)) == encoded_of(n));
    lemma_be_value_min_be(n);
}

} // verus!
