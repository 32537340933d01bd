//! An RSA blind-signature token core.
//!
//! A holder derives a fixed-width message `m` and a prime blinding factor `r`
//! from a secret phrase and an order number, sends the blinded message
//! `m * r^e mod n` to an external signer, and later removes the blinding
//! factor from the returned signature and checks it against a goods
//! identifier. Big integers cross the boundary as base64url text without
//! padding.

pub mod bignum;
pub mod blind;
pub mod codec;
pub mod errors;
pub mod hashing;
pub mod modmath;
