//! SHA-256 and the double hash that signatures and proof of work are taken
//! over.

use vstd::prelude::*;
use sha2::Digest;
use sha2::Sha256;

verus! {

/// The SHA-256 digest of a message, as computed by the `sha2` crate.
pub uninterp spec fn sha256(message: Seq<u8>) -> Seq<u8>;

/// The digest of the digest of `message`.
pub open spec fn double_sha256(message: Seq<u8>) -> Seq<u8> {
    sha256(sha256(message))
}

/// Calls `sha2::Sha256::digest` on `message`.
///
/// Trusted: the returned array holds the SHA-256 digest of `message`, which
/// depends on the bytes of `message` and on nothing else.
#[verifier::external_body]
fn sha256_digest(message: &[u8]) -> (digest: [u8; 32])
    ensures
        digest@ == sha256(message@),
{
    Sha256::digest(message).into()
}

/// Hashes `message`, then hashes the digest.
pub fn double_hash(message: &[u8]) -> (digest: [u8; 32])
    ensures
        digest@ == double_sha256(message@),
{
    let first = sha256_digest(message);
    sha256_digest(&first)
}

/// The double hash is a function of the message bytes alone: two buffers
/// that hold the same bytes have the same double hash.
pub proof fn lemma_double_hash_deterministic(a: Seq<u8>, b: Seq<u8>)
    requires
        a == b,
    ensures
        double_sha256(a) == double_sha256(b),
{
}

} // verus!
