//! Numeric sort keys.
//!
//! A number reaches the library as the 64 bits of its IEEE 754 double
//! encoding. Those bits are mapped to a rank, an unsigned integer that grows
//! with the number, so that sorting never compares anything but integers.
//! Both zeros share one rank, and every NaN takes the greatest rank of all:
//! a NaN sorts after every number, infinity included.

use vstd::prelude::*;

verus! {

/// The sign bit of a double; also the rank of zero.
pub const SIGN_BIT: u64 = 0x8000_0000_0000_0000u64;

/// The bits of positive infinity: the greatest magnitude that is a number.
pub const INFINITY_BITS: u64 = 0x7FF0_0000_0000_0000u64;

/// The encoding without its sign bit.
pub open spec fn magnitude(bits: u64) -> int {
    if bits >= SIGN_BIT {
        bits - SIGN_BIT
    } else {
        bits as int
    }
}

/// The encoding is a NaN: its magnitude lies beyond infinity's.
pub open spec fn is_nan(bits: u64) -> bool {
    magnitude(bits) > INFINITY_BITS
}

/// The encoding read as a signed magnitude. Doubles that are numbers compare
/// as these integers do.
pub open spec fn ordinal(bits: u64) -> int {
    if bits >= SIGN_BIT {
        -magnitude(bits)
    } else {
        magnitude(bits)
    }
}

/// The rank of an encoding: the greatest `u64` for a NaN, otherwise the
/// ordinal shifted up by the rank of zero.
pub open spec fn rank_of(bits: u64) -> u64 {
    if is_nan(bits) {
        u64::MAX
    } else {
        (SIGN_BIT + ordinal(bits)) as u64
    }
}

/// Computes the rank of a double from its bits.
pub fn numeric_rank(bits: u64) -> (rank: u64)
    ensures
        rank == rank_of(bits),
{
    let negative = bits >= SIGN_BIT;
    let mag: u64 = if negative {
        bits - SIGN_BIT
    } else {
        bits
    };
    if mag > INFINITY_BITS {
        u64::MAX
    } else if negative {
        SIGN_BIT - mag
    } else {
        SIGN_BIT + mag
    }
}

/// Ranks order the numbers as their ordinals do, and place every NaN last.
pub proof fn lemma_rank_orders(a: u64, b: u64)
    ensures
        !is_nan(a) && !is_nan(b) ==> (rank_of(a) <= rank_of(b) <==> ordinal(a) <= ordinal(b)),
        !is_nan(a) && is_nan(b) ==> rank_of(a) < rank_of(b),
        is_nan(a) && is_nan(b) ==> rank_of(a) == rank_of(b),
{
}

/// The two zeros, which differ only in the sign bit, share a rank.
pub proof fn lemma_zeros_share_rank()
    ensures
        rank_of(0) == rank_of(SIGN_BIT) == SIGN_BIT,
{
}

} // verus!
