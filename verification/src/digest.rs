//! SHA-1 digests, computed by the `sha1` crate.
use vstd::prelude::*;
use sha1::Digest;

verus! {

/// The SHA-1 digest of `data`, as `sha1::Sha1::digest` computes it.
pub uninterp spec fn sha1_digest(data: Seq<u8>) -> Seq<u8>;

/// Calls `sha1::Sha1::digest` on `data` and returns the 20 digest bytes. The contract
/// names the result and says nothing more of it.
#[verifier::external_body]
pub(crate) fn sha1(data: &[u8]) -> (r: [u8; 20])
    ensures
        r@ == sha1_digest(data@),
{
    sha1::Sha1::digest(data).into()
}

} // verus!
