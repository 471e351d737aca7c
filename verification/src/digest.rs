//! SHA-256, computed by the `sha2` crate.

use vstd::prelude::*;

verus! {

/// The SHA-256 digest of `data`.
pub uninterp spec fn sha256(data: Seq<u8>) -> Seq<u8>;

/// Calls `sha2::Sha256::digest`, the one-shot form of the hash. The digest
/// is a function of the bytes alone; its 32 bytes come back as an array.
#[verifier::external_body]
pub(crate) fn sha256_digest(data: &[u8]) -> (d: [u8; 32])
    ensures
        d@ == sha256(data@),
{
    <sha2::Sha256 as sha2::Digest>::digest(data).into()
}

} // verus!
