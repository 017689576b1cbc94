//! Total-order keys for single-precision float bit patterns.
//!
//! Comparing two keys as unsigned integers compares the floats they stand
//! for: negative values lie below positive ones, and `-0.0` just below `+0.0`.
//! The mapping is a bijection on `u32`, so a key always converts back to
//! the exact bit pattern it came from.
use vstd::prelude::*;

verus! {

/// The sign bit of an IEEE-754 single-precision bit pattern.
pub const SIGN_BIT: u32 = 0x8000_0000;

/// Whether the bit pattern has its sign bit set.
pub open spec fn is_negative(bits: u32) -> bool {
    bits >= SIGN_BIT
}

/// The key of the float with bit pattern `bits`: a negative float's
/// magnitude is mirrored below the sign bit, a positive one lifted above it.
pub open spec fn key_spec(bits: u32) -> u32 {
    if is_negative(bits) {
        (u32::MAX - bits) as u32
    } else {
        (bits + SIGN_BIT) as u32
    }
}

/// The bit pattern that a key stands for.
pub open spec fn bits_spec(key: u32) -> u32 {
    if key >= SIGN_BIT {
        (key - SIGN_BIT) as u32
    } else {
        (u32::MAX - key) as u32
    }
}

/// The ordered key of the float with bit pattern `bits`.
pub fn order_key(bits: u32) -> (k: u32)
    ensures
        k == key_spec(bits),
{
    if bits >= SIGN_BIT {
        u32::MAX - bits
    } else {
        bits + SIGN_BIT
    }
}

/// The float bit pattern that `key` stands for.
pub fn key_bits(key: u32) -> (bits: u32)
    ensures
        bits == bits_spec(key),
{
    if key >= SIGN_BIT {
        key - SIGN_BIT
    } else {
        u32::MAX - key
    }
}

/// Converting a bit pattern to its key and back gives the bit pattern, and
/// converting a key to its bit pattern and back gives the key.
pub proof fn lemma_key_round_trip(bits: u32, key: u32)
    ensures
        bits_spec(key_spec(bits)) == bits,
        key_spec(bits_spec(key)) == key,
{
}

/// Keys order floats by value: two non-negative patterns keep their integer
/// order (which is their magnitude order), two negative patterns reverse it,
/// and every negative pattern lies below every non-negative one.
pub proof fn lemma_key_order(a: u32, b: u32)
    ensures
        !is_negative(a) && !is_negative(b) ==> (key_spec(a) < key_spec(b) <==> a < b),
        is_negative(a) && is_negative(b) ==> (key_spec(a) < key_spec(b) <==> a > b),
        is_negative(a) && !is_negative(b) ==> key_spec(a) < key_spec(b),
{
}

} // verus!
