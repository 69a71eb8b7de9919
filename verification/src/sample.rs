//! Single-precision samples held as IEEE 754 bit patterns, and the order of
//! the numbers they encode.

use vstd::prelude::*;

verus! {

/// The bit that holds the sign.
pub const SIGN_BIT: u32 = 0x8000_0000;

/// The pattern of positive infinity; every greater magnitude is a NaN.
pub const INFINITY_BITS: u32 = 0x7f80_0000;

/// The pattern of positive zero.
pub const ZERO_BITS: u32 = 0;

/// The pattern with its sign bit cleared.
pub open spec fn magnitude(bits: u32) -> int {
    if bits >= SIGN_BIT {
        bits - SIGN_BIT
    } else {
        bits as int
    }
}

/// Whether the pattern encodes a NaN.
pub open spec fn spec_is_nan(bits: u32) -> bool {
    magnitude(bits) > INFINITY_BITS
}

/// An integer that orders patterns as the numbers they encode are ordered:
/// for patterns `a` and `b` that are no NaN, the number of `a` is less than
/// that of `b` exactly if the key of `a` is less than the key of `b`, and
/// the two numbers are equal exactly if the keys are. Both zeros have key 0.
pub open spec fn spec_order_key(bits: u32) -> int {
    if bits >= SIGN_BIT {
        -magnitude(bits)
    } else {
        magnitude(bits)
    }
}

/// Whether the pattern encodes a NaN.
#[verifier::when_used_as_spec(spec_is_nan)]
pub fn is_nan(bits: u32) -> (nan: bool)
    ensures
        nan == spec_is_nan(bits),
{
    let m = if bits >= SIGN_BIT {
        bits - SIGN_BIT
    } else {
        bits
    };
    m > INFINITY_BITS
}

/// The order key of a pattern.
pub fn order_key(bits: u32) -> (key: i32)
    ensures
        key == spec_order_key(bits),
{
    if bits >= SIGN_BIT {
        let m: u32 = bits - SIGN_BIT;
        -(m as i32)
    } else {
        bits as i32
    }
}

/// Patterns with the same key are the same pattern, or the two zeros.
pub proof fn lemma_key_identifies(a: u32, b: u32)
    requires
        spec_order_key(a) == spec_order_key(b),
    ensures
        a == b || (magnitude(a) == 0 && magnitude(b) == 0),
{
}

/// Among patterns that are no NaN the keys run from that of negative
/// infinity to that of positive infinity.
pub proof fn lemma_key_range(bits: u32)
    ensures
        !spec_is_nan(bits) <==> -(INFINITY_BITS as int) <= spec_order_key(bits) <= INFINITY_BITS,
{
}

} // verus!
