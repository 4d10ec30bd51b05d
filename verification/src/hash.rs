//! Hashing a transcript to a scalar.

use crate::scalar::{be_value, group_order, Scalar};
use vstd::prelude::*;

verus! {

/// The 64 byte Blake2b digest of `data`.
pub uninterp spec fn blake2b_512(data: Seq<u8>) -> Seq<u8>;

/// The 32 byte Blake2b digest of `data`.
pub uninterp spec fn blake2b_256(data: Seq<u8>) -> Seq<u8>;

/// A Blake2b digest of 32 bytes.
#[derive(Clone, Copy, Debug, PartialEq, Eq, Hash)]
pub struct Blake2b256 {
    bytes: [u8; 32],
}

impl View for Blake2b256 {
    type V = Seq<u8>;

    closed spec fn view(&self) -> Seq<u8> {
        self.bytes@
    }
}

impl Blake2b256 {
    /// The digest of `data`.
    pub fn new(data: &[u8]) -> (r: Blake2b256)
        ensures
            r@ == blake2b_256(data@),
    {
        Blake2b256 { bytes: digest_256(data) }
    }

    /// The 32 bytes of the digest.
    pub fn to_bytes(&self) -> (r: [u8; 32])
        ensures
            r@ == self@,
    {
        self.bytes
    }

    /// The bytes of the digest.
    pub fn as_bytes(&self) -> (r: &[u8])
        ensures
            r@ == self@,
    {
        &self.bytes
    }
}

/// The scalar that a transcript is hashed to: its Blake2b digest of 64
/// bytes, read as a big-endian integer and reduced modulo the group order.
pub open spec fn scalar_hash(data: Seq<u8>) -> int {
    be_value(blake2b_512(data)) as int % group_order()
}

/// Hashes `data` to a scalar.
pub fn hash_to_scalar(data: &[u8]) -> (r: Scalar)
    ensures
        r.wf(),
        r@ == scalar_hash(data@),
{
    let digest = digest_512(data);
    Scalar::from_wide_bytes(&digest)
}

/// `blake2b_512` of cryptoxide: the unkeyed Blake2b digest of 64 bytes.
#[verifier::external_body]
fn digest_512(data: &[u8]) -> (r: [u8; 64])
    ensures
        r@ == blake2b_512(data@),
{
    cryptoxide::hashing::blake2b_512(data)
}

/// `blake2b_256` of cryptoxide: the unkeyed Blake2b digest of 32 bytes.
#[verifier::external_body]
fn digest_256(data: &[u8]) -> (r: [u8; 32])
    ensures
        r@ == blake2b_256(data@),
{
    cryptoxide::hashing::blake2b_256(data)
}

} // verus!
