//! The hash code of a key and the bucket it selects.

use vstd::prelude::*;

verus! {

/// The 64-bit hash code that `fasthash::metro::hash64` gives a byte string:
/// MetroHash64 in its CRC variant with seed 0, which that crate's default
/// features select.
pub uninterp spec fn metro_hash64_of(bytes: Seq<u8>) -> u64;

/// Calls `fasthash::metro::hash64` on the key's bytes.
///
/// Not proved: that the result is a function of the bytes alone, so that the
/// same bytes give the same code on every call. Nothing is claimed of which
/// code a given key gets.
#[verifier::external_body]
pub(crate) fn metro_hash64(key: &[u8]) -> (code: u64)
    ensures
        code == metro_hash64_of(key@),
{
    fasthash::metro::hash64(key)
}

/// The size of a hash code once it is read as a signed 64-bit number: the
/// code itself below 2^63, and its distance to 2^64 from there on.
pub open spec fn hash_magnitude(hash_code: u64) -> nat {
    if hash_code < 0x8000_0000_0000_0000 {
        hash_code as nat
    } else {
        (0x1_0000_0000_0000_0000 - hash_code) as nat
    }
}

/// The bucket that a hash code selects among `bucket_count` buckets.
pub open spec fn bucket_index_of(hash_code: u64, bucket_count: nat) -> nat {
    hash_magnitude(hash_code) % bucket_count
}

/// Whether a table of `bucket_count` buckets that holds `size` pairs has
/// reached a load factor of seven tenths.
pub open spec fn load_reached(size: nat, bucket_count: nat) -> bool {
    10 * size >= 7 * bucket_count
}

/// Maps a hash code to a position in an array of `num_buckets` buckets.
///
/// A code that is negative as a signed number counts by its absolute value,
/// so the position never wraps around.
pub fn bucket_index(hash_code: u64, num_buckets: usize) -> (index: usize)
    requires
        num_buckets > 0,
    ensures
        index == bucket_index_of(hash_code, num_buckets as nat),
        index < num_buckets,
{
    let magnitude: u64 = if hash_code < 0x8000_0000_0000_0000 {
        hash_code
    } else {
        (u64::MAX - hash_code) + 1
    };
    (magnitude % (num_buckets as u64)) as usize
}

/// Tells whether `size` pairs in `num_buckets` buckets call for growth.
pub fn should_grow(size: usize, num_buckets: usize) -> (grow: bool)
    ensures
        grow == load_reached(size as nat, num_buckets as nat),
{
    (size as u128) * 10 >= (num_buckets as u128) * 7
}

} // verus!
