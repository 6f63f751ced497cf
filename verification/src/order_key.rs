//! Ordering keys for IEEE 754 binary64 values.
//!
//! The search algorithms only ever compare scores, fitnesses and distances.
//! A value is handed to the library as its bit pattern and turned into an
//! unsigned key whose integer order is the numeric order of the value.
use vstd::prelude::*;

verus! {

/// The sign bit of a binary64 bit pattern.
pub const SIGN_BIT: u64 = 0x8000_0000_0000_0000;

/// Bit pattern of positive infinity.
pub const INFINITY_BITS: u64 = 0x7FF0_0000_0000_0000;

/// Bit pattern of negative infinity.
pub const NEG_INFINITY_BITS: u64 = 0xFFF0_0000_0000_0000;

/// The magnitude field (exponent and fraction) of a bit pattern.
pub open spec fn magnitude(bits: u64) -> int {
    if bits >= SIGN_BIT { bits - SIGN_BIT } else { bits as int }
}

/// Whether the sign bit is set.
pub open spec fn is_negative(bits: u64) -> bool {
    bits >= SIGN_BIT
}

/// The position of a bit pattern on the number line: the magnitude, negated
/// when the sign bit is set. For values that are not NaN, binary64 order is
/// the order of this integer (both zeros sit at 0).
pub open spec fn signed_magnitude(bits: u64) -> int {
    if is_negative(bits) { -magnitude(bits) } else { magnitude(bits) }
}

/// Key of a bit pattern: its signed magnitude shifted into the unsigned range.
pub open spec fn spec_order_key(bits: u64) -> int {
    SIGN_BIT + signed_magnitude(bits)
}

/// Turns the bit pattern of a binary64 value into its ordering key.
pub fn order_key(bits: u64) -> (key: u64)
    ensures
        key == spec_order_key(bits),
{
    if bits >= SIGN_BIT {
        SIGN_BIT - (bits - SIGN_BIT)
    } else {
        SIGN_BIT + bits
    }
}

/// Keys compare exactly as the signed magnitudes of their bit patterns do:
/// `a` lies below `b` on the number line iff its key is smaller, and the two
/// zeros get the same key.
pub proof fn order_key_preserves_order(a: u64, b: u64)
    ensures
        (spec_order_key(a) < spec_order_key(b)) <==> (signed_magnitude(a) < signed_magnitude(b)),
        (spec_order_key(a) == spec_order_key(b)) <==> (signed_magnitude(a) == signed_magnitude(b)),
        spec_order_key(0) == spec_order_key(SIGN_BIT),
        0 <= spec_order_key(a) <= u64::MAX,
{
}

} // verus!
