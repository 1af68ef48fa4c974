//! Content digests.

use sha2::{Digest, Sha256};
use vstd::prelude::*;

verus! {

/// The SHA-256 digest of a byte string.
pub uninterp spec fn sha256(data: Seq<u8>) -> Seq<u8>;

/// `sha2::Sha256::digest`, taken on trust: what it returns for `data` is the
/// SHA-256 digest of `data`, the same for the same bytes.
#[verifier::external_body]
fn sha256_digest(data: &[u8]) -> (digest: Vec<u8>)
    ensures
        digest@ == sha256(data@),
{
    Sha256::digest(data).to_vec()
}

/// The digest by which the hash stage tells files apart.
pub fn calculate_hash(content: &[u8]) -> (digest: Vec<u8>)
    ensures
        digest@ == sha256(content@),
{
    sha256_digest(content)
}

} // verus!
