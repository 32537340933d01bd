use vstd::prelude::*;

verus! {

/// Failure kinds of the token operations. Failures never carry the phrase or
/// any value derived from it; they may carry the caller-supplied signed-token
/// text for diagnostics.
#[derive(Debug)]
pub enum CryptoError {
    /// Malformed base64 text, an empty byte sequence where a big integer
    /// was expected, or a key that decodes to a zero modulus.
    DecodingError,
    /// The key derivation rejected its input (a salt shorter than its minimum,
    /// or an input beyond the derivation's size limits).
    KdfError,
    /// The search for the blinding-factor prime reported no result.
    NextPrimeNotFound,
    /// The unblinded signature failed the verification equation. Carries the
    /// offending signed-blind-token text.
    SignTokenIllegal(String),
    /// An inner operation failed that never should: the blinding factor has no
    /// inverse modulo the supplied modulus.
    Unexpected,
}

pub type CryptoResult<T> = Result<T, CryptoError>;

/// The diagnostic channel. The token operations derive secret-adjacent
/// values (`m`, `r`, the blinded message), so diagnostics default to off:
/// this hook discards its input rather than hand derived values to a log.
pub fn console_log(s: &str) {
    let _ = s;
}

} // verus!
