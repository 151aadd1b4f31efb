//! The 64-bit key of a record: a multiply-rotate-xor mix of its first four
//! bytes and its length. Equal byte strings get equal keys; unequal ones may
//! collide.

use vstd::prelude::*;

verus! {

/// The odd multiplier of the mixing step.
pub const SEED: u64 = 0x517c_c1b7_2722_0a95;

/// `x` with its bits rotated left by five places.
pub open spec fn rotated(x: u64) -> u64 {
    (x << 5) | (x >> 59)
}

/// One mixing step: rotate, xor the input in, multiply modulo 2^64.
pub open spec fn mixed(x: u64, i: u64) -> u64 {
    (rotated(x) ^ i).wrapping_mul(SEED)
}

/// The key of a byte string of at least four bytes.
pub open spec fn key_of(bytes: Seq<u8>) -> u64
    recommends
        bytes.len() >= 4,
{
    mixed(
        mixed(mixed(mixed(mixed(0, bytes[0] as u64), bytes[1] as u64), bytes[2] as u64), bytes[3] as u64),
        bytes.len() as u64,
    )
}

/// Folds one more word into a running hash.
pub fn add_to_hash(x: u64, i: u64) -> (r: u64)
    ensures
        r == mixed(x, i),
{
    (((x << 5) | (x >> 59)) ^ i).wrapping_mul(SEED)
}

/// The key of `name`: its first four bytes and then its length, folded into
/// zero.
pub fn to_key(name: &[u8]) -> (k: u64)
    requires
        name@.len() >= 4,
    ensures
        k == key_of(name@),
{
    let mut ret: u64 = 0;
    ret = add_to_hash(ret, name[0] as u64);
    ret = add_to_hash(ret, name[1] as u64);
    ret = add_to_hash(ret, name[2] as u64);
    ret = add_to_hash(ret, name[3] as u64);
    add_to_hash(ret, name.len() as u64)
}

} // verus!
