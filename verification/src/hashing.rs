//! The content-addressing hash: record identity is the Blake2b-256 digest of
//! the payload bytes.

use vstd::prelude::*;
use blake2::Digest;

verus! {

/// The identifier derived from a payload: the Blake2b-256 digest of its
/// bytes. A function of the payload alone, so identical content always maps
/// to the same identifier, across calls and across process instances.
pub uninterp spec fn hash_of(payload: Seq<u8>) -> Seq<u8>;

/// Relies on blake2's `Blake2b` digest with a 32-byte output: the digest is
/// deterministic in the input bytes, and its output is always 32 bytes long.
#[verifier::external_body]
pub(crate) fn hash_payload(payload: &Vec<u8>) -> (r: Vec<u8>)
    ensures
        r@ == hash_of(payload@),
        r@.len() == 32,
{
    let digest = blake2::Blake2b256::digest(payload.as_slice());
    digest.as_slice().to_vec()
}

} // verus!
