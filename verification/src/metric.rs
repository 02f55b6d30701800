//! The XOR metric between identifiers and the bucket that a distance falls in.

use libp2p::kad::KBucketKey;
use vstd::prelude::*;

verus! {

/// The key under which an identifier takes part in the XOR metric: the
/// SHA-256 digest that libp2p's `KBucketKey::new` computes of the
/// identifier's bytes.
pub uninterp spec fn kbucket_key(id: Seq<u8>) -> Seq<u8>;

/// The number that a byte string writes, most significant byte first.
pub open spec fn be_value(bytes: Seq<u8>) -> nat
    decreases bytes.len(),
{
    if bytes.len() == 0 {
        0
    } else {
        be_value(bytes.drop_last()) * 256 + bytes.last() as nat
    }
}

/// The bytewise XOR of two keys.
pub open spec fn xor_bytes(a: Seq<u8>, b: Seq<u8>) -> Seq<u8> {
    Seq::new(a.len(), |i: int| a[i] ^ b[i])
}

/// The XOR distance between two keys, as a number.
pub open spec fn distance(a: Seq<u8>, b: Seq<u8>) -> nat {
    be_value(xor_bytes(a, b))
}

/// The whole part of the base 2 logarithm of a positive number.
pub open spec fn floor_log2(n: nat) -> nat
    decreases n,
{
    if n <= 1 {
        0
    } else {
        1 + floor_log2(n / 2)
    }
}

/// The bucket of a distance: the position of its highest set bit, and no
/// bucket for the distance zero.
pub open spec fn ilog2(d: nat) -> Option<u32> {
    if d == 0 {
        None
    } else {
        Some(floor_log2(d) as u32)
    }
}

/// The bucket that the identifier `other` falls in, seen from `local`.
pub open spec fn bucket_index(local: Seq<u8>, other: Seq<u8>) -> Option<u32> {
    ilog2(distance(kbucket_key(other), kbucket_key(local)))
}

/// Calls libp2p's `KBucketKey::new` on each identifier, `KBucketKey::distance`
/// on the two keys and `Distance::ilog2` on their distance.
///
/// Trusted: the key of an identifier is a function of its bytes alone, the
/// distance is the XOR of the two keys read as numbers with the most
/// significant byte first, and `ilog2` is the position of the highest set bit
/// of the distance, or `None` when the distance is zero.
#[verifier::external_body]
pub(crate) fn ilog2_distance(local: &Vec<u8>, other: &Vec<u8>) -> (bucket: Option<u32>)
    ensures
        bucket == ilog2(distance(kbucket_key(other@), kbucket_key(local@))),
{
    let local_key = KBucketKey::new(local.as_slice());
    let other_key = KBucketKey::new(other.as_slice());
    other_key.distance(&local_key).ilog2()
}

} // verus!
