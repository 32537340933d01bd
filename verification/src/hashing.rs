//! The digest primitive and the memory-hard key derivation, behind trusted
//! wrappers around sha2 and rust-argon2.

use sha2::Digest;
use vstd::prelude::*;
use vstd::string::StringSliceAdditionalSpecFns;

verus! {

/// What SHA-256 returns for a byte string: 32 bytes, a function of the
/// input alone.
pub uninterp spec fn sha256_of(data: Seq<u8>) -> Seq<u8>;

/// What Argon2 with this library's fixed cost configuration returns for a
/// password, a salt and an output length: `len` bytes, a function of the
/// three arguments alone.
pub uninterp spec fn argon2_of(pwd: Seq<u8>, salt: Seq<u8>, len: nat) -> Seq<u8>;

/// Relies on sha2's `Sha256`: the digest is 32 bytes and depends on the
/// input bytes alone.
#[verifier::external_body]
pub(crate) fn sha256(data: &[u8]) -> (r: Vec<u8>)
    ensures
        r@ == sha256_of(data@),
        r@.len() == 32,
{
    sha2::Sha256::digest(data).to_vec()
}

/// Relies on rust-argon2's `hash_raw` with its default configuration and the
/// given hash length. The hash is a function of (password, salt, length)
/// alone. `hash_raw` validates its inputs before running: with this
/// configuration it fails exactly when the requested length is under its
/// minimum of 4 bytes, the salt is shorter than 8 bytes, or the password or
/// the salt is longer than `u32::MAX` bytes.
#[verifier::external_body]
pub(crate) fn kdf(pwd: &str, salt: &str, len: u32) -> (r: Option<Vec<u8>>)
    ensures
        match r {
            Some(v) => v@ == argon2_of(pwd.spec_bytes(), salt.spec_bytes(), len as nat)
                && v@.len() == len,
            None => true,
        },
        (r is Some) <==> (4 <= len && 8 <= salt.spec_bytes().len() <= 0xFFFF_FFFF
            && pwd.spec_bytes().len() <= 0xFFFF_FFFF),
{
    let mut config = argon2::Config::default();
    config.hash_length = len;
    match argon2::hash_raw(pwd.as_bytes(), salt.as_bytes(), &config) {
        Ok(v) => Some(v),
        Err(_) => None,
    }
}

} // verus!
