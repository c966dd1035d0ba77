//! Ordered keys of IEEE-754 doubles.
//!
//! A double's bit pattern `b` is mapped to the signed integer
//! `b` when the sign bit is clear, and to `-1 - (b - 2^63)` when it is set.
//! For every pair of non-NaN doubles `x < y` the keys satisfy
//! `key(x) < key(y)`, so minima, maxima and comparisons of doubles are the
//! same operations on their keys. The only pair that the keys tell apart and
//! the doubles do not is `-0.0 < +0.0`. NaNs with the sign bit clear sort
//! above `+inf`, those with the sign bit set below `-inf`.
use vstd::prelude::*;

verus! {

/// Bit pattern of `+inf`, which is also its key.
pub const POS_INFINITY: i64 = 0x7FF0_0000_0000_0000;

/// Key of `-inf`.
pub const NEG_INFINITY: i64 = -0x7FF0_0000_0000_0001;

/// Key of `+0.0`.
pub const ZERO: i64 = 0;

pub const SIGN_BIT: u64 = 0x8000_0000_0000_0000;

/// The key of the double whose bit pattern is `b`.
pub open spec fn key_spec(b: u64) -> int {
    if b < SIGN_BIT {
        b as int
    } else {
        -1 - (b - SIGN_BIT)
    }
}

/// The bit pattern of the double whose key is `k`.
pub open spec fn bits_spec(k: i64) -> int {
    if k >= 0 {
        k as int
    } else {
        SIGN_BIT + (-1 - k)
    }
}

/// Key of a double given by its bit pattern (`f64::to_bits`).
pub fn key_of_bits(b: u64) -> (k: i64)
    ensures
        k as int == key_spec(b),
        bits_spec(k) == b as int,
        (b < SIGN_BIT) == (k >= 0),
{
    if b < SIGN_BIT {
        b as i64
    } else {
        let m: u64 = b - SIGN_BIT;
        -1i64 - (m as i64)
    }
}

/// Bit pattern (for `f64::from_bits`) of the double whose key is `k`.
pub fn bits_of_key(k: i64) -> (b: u64)
    ensures
        b as int == bits_spec(k),
        key_spec(b) == k as int,
{
    if k >= 0 {
        k as u64
    } else {
        let m: i64 = -1i64 - k;
        (m as u64) + SIGN_BIT
    }
}

/// Decoding and then encoding gives back the key; encoding and then
/// decoding gives back the bit pattern.
pub proof fn lemma_key_round_trip(b: u64, k: i64)
    ensures
        bits_spec(key_spec(b) as i64) == b as int,
        key_spec(bits_spec(k) as u64) == k as int,
{
}

} // verus!
