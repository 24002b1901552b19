//! SHA-1, through the `sha1` crate.

use sha1::{Digest, Sha1};
use vstd::prelude::*;

verus! {

/// The SHA-1 digest of a byte string.
pub uninterp spec fn sha1(bytes: Seq<u8>) -> Seq<u8>;

/// Calls `sha1::Sha1::digest` on `bytes`.
///
/// Trusted: the 20 bytes returned are the SHA-1 digest of `bytes`, a
/// function of `bytes` alone.
#[verifier::external_body]
pub(crate) fn sha1_digest(bytes: &[u8]) -> (d: [u8; 20])
    ensures
        d@ == sha1(bytes@),
{
    Sha1::digest(bytes).into()
}

} // verus!
