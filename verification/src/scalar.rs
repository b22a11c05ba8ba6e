//! Numbers of the rating model, carried as ordered integers.
//!
//! The library never computes with ratings, deviations or weights: it stores
//! them, hands them on and ranks by them. So a number lives here as an integer
//! key whose order is the order of the numbers. The key is a rearrangement of a
//! 64-bit sign-and-magnitude pattern (one sign bit above 63 magnitude bits), the
//! layout of a binary64 value, so that a caller converts with `to_bits` and
//! `from_bits` without loss. The pattern of a negative zero has a key of its
//! own, just below that of zero: a caller for whom the two are one number
//! stores one of them.

use vstd::prelude::*;

verus! {

/// The lowest pattern whose sign bit is set.
pub const SIGN_BIT: u64 = 0x8000_0000_0000_0000;

/// The key of a sign-and-magnitude pattern: a pattern without the sign bit is
/// its own key, one with the sign bit and magnitude `m` has the key `-1 - m`.
pub open spec fn key_of_bits(bits: u64) -> int {
    if bits < SIGN_BIT {
        bits as int
    } else {
        -1 - (bits - SIGN_BIT)
    }
}

/// The pattern that has the given key.
pub open spec fn bits_of_key(key: i64) -> int {
    if key >= 0 {
        key as int
    } else {
        SIGN_BIT + (-1 - key)
    }
}

/// A number of the rating model. Two numbers compare as their keys do.
#[derive(Clone, Copy, Debug, PartialEq, Eq, Structural)]
pub struct Scalar {
    pub key: i64,
}

impl Scalar {
    /// The number with the given sign-and-magnitude pattern.
    pub fn from_bits(bits: u64) -> (number: Scalar)
        ensures
            number.key == key_of_bits(bits),
            bits_of_key(number.key) == bits,
    {
        if bits < SIGN_BIT {
            Scalar { key: bits as i64 }
        } else {
            let magnitude: u64 = bits - SIGN_BIT;
            Scalar { key: -1 - (magnitude as i64) }
        }
    }

    /// The sign-and-magnitude pattern of this number.
    pub fn to_bits(self) -> (bits: u64)
        ensures
            bits == bits_of_key(self.key),
            key_of_bits(bits) == self.key,
    {
        if self.key >= 0 {
            self.key as u64
        } else {
            let magnitude: i64 = -1 - self.key;
            SIGN_BIT + (magnitude as u64)
        }
    }

    /// The key that orders this number.
    pub fn key(self) -> (key: i64)
        ensures
            key == self.key,
    {
        self.key
    }

    /// Whether this number is strictly below `other`.
    pub fn lt(self, other: Scalar) -> (below: bool)
        ensures
            below == (self.key < other.key),
    {
        self.key < other.key
    }
}

/// Keys order patterns as the numbers they encode: a pattern with the sign bit
/// is below every pattern without it, patterns without it order as their
/// magnitudes do, and patterns with it in the reverse of their magnitudes.
pub proof fn lemma_key_order(a: u64, b: u64)
    ensures
        a >= SIGN_BIT && b < SIGN_BIT ==> key_of_bits(a) < key_of_bits(b),
        a < SIGN_BIT && b < SIGN_BIT ==> (key_of_bits(a) < key_of_bits(b) <==> a < b),
        a >= SIGN_BIT && b >= SIGN_BIT ==> (key_of_bits(a) < key_of_bits(b) <==> a > b),
        key_of_bits(a) == key_of_bits(b) <==> a == b,
{
}

} // verus!
