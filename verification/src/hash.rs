//! Hashing.

use tiny_keccak::{Hasher, Keccak};
use vstd::prelude::*;

verus! {

/// The Keccak-256 digest of a byte string.
pub uninterp spec fn keccak256_digest(data: Seq<u8>) -> Seq<u8>;

/// Runs `tiny_keccak`'s Keccak hasher at 256 bits over `data`: `Keccak::v256`,
/// one `Hasher::update` with the whole input, then `Hasher::finalize` into a
/// buffer of 32 bytes. Nothing is proved of it: the digest is taken to be a
/// function of the input bytes alone, under the name `keccak256_digest`.
#[verifier::external_body]
fn keccak_v256(data: &[u8]) -> (digest: [u8; 32])
    ensures
        digest@ == keccak256_digest(data@),
{
    let mut result = [0u8;32];
    let mut hasher = Keccak::v256();
    hasher.update(data);
    hasher.finalize(&mut result);
    result
}

/// The Keccak-256 digest of `data`.
pub fn keccak256(data: &[u8]) -> (digest: [u8; 32])
    ensures
        digest@ == keccak256_digest(data@),
        digest@.len() == 32,
{
    keccak_v256(data)
}

} // verus!
