//! The digest function: MD5, computed by the `md5` crate.

use vstd::prelude::*;

verus! {

/// Number of bytes in a digest.
pub const DIGEST_LEN: usize = 16;

/// The MD5 digest of a byte string.
pub uninterp spec fn md5_digest(data: Seq<u8>) -> [u8; 16];

/// The digest of a byte string as a sequence of `DIGEST_LEN` bytes.
pub open spec fn digest_of(data: Seq<u8>) -> Seq<u8> {
    md5_digest(data)@
}

/// Calls `md5::compute` and hands out the sixteen bytes of the `Digest` it
/// returns. The contract only gives that value its name: the digest is a
/// function of the input bytes and of nothing else.
#[verifier::external_body]
pub(crate) fn md5_compute(data: &[u8]) -> (out: [u8; 16])
    ensures
        out == md5_digest(data@),
{
    md5::compute(data).0
}

/// Hashes `data`.
pub fn digest(data: &[u8]) -> (out: [u8; 16])
    ensures
        out@ == digest_of(data@),
{
    md5_compute(data)
}

} // verus!
