//! Ordered keys for coordinates.
//!
//! A coordinate enters the library as the 64 bits of its IEEE-754 encoding and
//! is held as a key: an `i64` whose order is the total order that
//! `f64::total_cmp` documents (negative values below `-0.0`, below `+0.0`,
//! below positive values). The library only compares coordinates, so keys are
//! all it needs, and the encoding is undone without loss.
use vstd::prelude::*;

verus! {

/// The sign bit of an encoding.
pub const SIGN_BIT: u64 = 0x8000_0000_0000_0000;

/// The encoding of positive infinity.
pub const POSITIVE_INFINITY_BITS: u64 = 0x7FF0_0000_0000_0000;

/// The key of an encoding: a non-negative value keeps its bits, a negative
/// one is mirrored below zero by the magnitude bits, so that a larger
/// magnitude gives a smaller key.
pub open spec fn key_of(bits: u64) -> int {
    if bits < SIGN_BIT {
        bits as int
    } else {
        -1 - (bits - SIGN_BIT)
    }
}

/// The encoding that a key stands for.
pub open spec fn bits_of(key: i64) -> int {
    if key >= 0 {
        key as int
    } else {
        SIGN_BIT + (-1 - key)
    }
}

/// Turns an encoding into its key.
pub fn coordinate_key(bits: u64) -> (k: i64)
    ensures
        k == key_of(bits),
{
    if bits < SIGN_BIT {
        bits as i64
    } else {
        let magnitude: u64 = bits - SIGN_BIT;
        -1 - (magnitude as i64)
    }
}

/// Turns a key back into its encoding.
pub fn coordinate_bits(key: i64) -> (b: u64)
    ensures
        b == bits_of(key),
{
    if key >= 0 {
        key as u64
    } else {
        let magnitude: i64 = -1 - key;
        SIGN_BIT + (magnitude as u64)
    }
}

/// Encoding and key are in one-to-one correspondence: each undoes the other,
/// and two encodings share a key only when they are equal. Non-negative
/// encodings keep their order, negative ones are reversed, and every
/// negative one comes below every non-negative one.
pub proof fn lemma_key_round_trip(bits: u64, key: i64, other: u64)
    ensures
        i64::MIN <= key_of(bits) <= i64::MAX,
        bits_of(key_of(bits) as i64) == bits,
        0 <= bits_of(key) <= u64::MAX,
        key_of(bits_of(key) as u64) == key,
        key_of(bits) == key_of(other) ==> bits == other,
        bits < other < SIGN_BIT ==> key_of(bits) < key_of(other),
        SIGN_BIT <= bits < other ==> key_of(other) < key_of(bits),
        bits < SIGN_BIT <= other ==> key_of(other) < 0 <= key_of(bits),
{
}

} // verus!
