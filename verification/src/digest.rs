//! The hash function from which identifiers are derived.

use sha2::{Digest, Sha256};
use vstd::prelude::*;
use crate::KEY_LEN;

verus! {

/// The SHA-256 digest of a byte string.
///
/// The digest is computed by the `sha2` crate and is left uninterpreted here:
/// all that is known of it is that equal inputs have equal digests.
pub uninterp spec fn sha256(data: Seq<u8>) -> Seq<u8>;

/// Hashes `data` with `sha2::Sha256::digest`.
///
/// Trusted: the result is taken to be the SHA-256 digest of exactly the bytes
/// given, which depends on nothing but those bytes. That it is 32 bytes long
/// is the crate's own output type for SHA-256.
#[verifier::external_body]
pub(crate) fn sha256_digest(data: &[u8]) -> (out: [u8; KEY_LEN])
    ensures
        out@ == sha256(data@),
{
    Sha256::digest(data).into()
}

} // verus!
