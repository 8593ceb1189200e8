//! SHA-1 digests.

use sha1::{Digest, Sha1};
use vstd::prelude::*;
use crate::wire::same_bytes;

verus! {

/// The SHA-1 digest of some bytes.
pub uninterp spec fn sha1_of(data: Seq<u8>) -> Seq<u8>;

/// `Sha1::new`, `Digest::update` and `Digest::finalize` of the `sha1` crate: the digest of
/// `data`, which depends on nothing else.
#[verifier::external_body]
fn digest(data: &[u8]) -> (digest: [u8; 20])
    ensures
        digest@ == sha1_of(data@),
{
    let mut hasher = Sha1::new();
    hasher.update(data);
    hasher.finalize().into()
}

/// The hash by which a torrent is known: the digest of its info section, as it is encoded.
pub fn info_hash(encoded_info: &[u8]) -> (hash: [u8; 20])
    ensures
        hash@ == sha1_of(encoded_info@),
{
    digest(encoded_info)
}

/// Whether `data` is what `hash` was made of, as far as the digest tells.
pub fn matches_hash(data: &[u8], hash: &[u8; 20]) -> (matched: bool)
    ensures
        matched == (sha1_of(data@) == hash@),
{
    same_bytes(&digest(data), hash)
}

} // verus!
