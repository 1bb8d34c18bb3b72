//! Real numbers as order keys.
//!
//! A non-NaN `f64` is held as a signed integer key: its bit pattern without
//! the sign for a non-negative value, the negation of that for a negative
//! one. Keys order exactly as the reals do (both zeros share the key 0),
//! and negating a real negates its key.

use vstd::prelude::*;

verus! {

/// The sign bit of an `f64` bit pattern.
pub const SIGN_BIT: u64 = 0x8000_0000_0000_0000;

/// The bit pattern of positive infinity; any larger magnitude is a NaN.
pub const INFINITY_BITS: u64 = 0x7ff0_0000_0000_0000;

/// The key of positive infinity, the largest key.
pub const INFINITY_KEY: i64 = 0x7ff0_0000_0000_0000;

/// The bit pattern without its sign bit.
pub open spec fn magnitude(bits: u64) -> int {
    if bits >= SIGN_BIT {
        bits - SIGN_BIT
    } else {
        bits as int
    }
}

pub open spec fn is_nan_bits(bits: u64) -> bool {
    magnitude(bits) > INFINITY_BITS
}

/// The key of a bit pattern: its magnitude, negated when the sign bit is set.
pub open spec fn key_of(bits: u64) -> int {
    if bits >= SIGN_BIT {
        -magnitude(bits)
    } else {
        magnitude(bits)
    }
}

/// A key of some non-NaN real, from negative to positive infinity.
pub open spec fn is_key(k: int) -> bool {
    -INFINITY_KEY <= k <= INFINITY_KEY
}

/// The key of the `f64` with bit pattern `bits`, or `None` for a NaN,
/// which has no place in the order.
pub fn real_key(bits: u64) -> (r: Option<i64>)
    ensures
        r is None <==> is_nan_bits(bits),
        r matches Some(k) ==> k == key_of(bits) && is_key(k as int),
{
    if bits >= SIGN_BIT {
        let m: u64 = bits - SIGN_BIT;
        if m > INFINITY_BITS {
            None
        } else {
            Some(-(m as i64))
        }
    } else if bits > INFINITY_BITS {
        None
    } else {
        Some(bits as i64)
    }
}

/// The bit pattern of the real with key `k`; zero comes back as positive zero.
pub fn key_bits(k: i64) -> (bits: u64)
    requires
        is_key(k as int),
    ensures
        !is_nan_bits(bits),
        key_of(bits) == k,
        k == 0 ==> bits == 0,
{
    if k < 0 {
        SIGN_BIT + ((-k) as u64)
    } else {
        k as u64
    }
}

/// The bit pattern with its sign bit flipped: the negated real.
pub open spec fn negated_bits(bits: u64) -> u64 {
    if bits >= SIGN_BIT {
        (bits - SIGN_BIT) as u64
    } else {
        (bits + SIGN_BIT) as u64
    }
}

/// Negating a real negates its key, and a NaN stays a NaN.
pub proof fn lemma_negation_negates_key(bits: u64)
    ensures
        is_nan_bits(negated_bits(bits)) == is_nan_bits(bits),
        key_of(negated_bits(bits)) == -key_of(bits),
{
}

/// Relies on partial_min_max::min: the first argument when it is the
/// smaller, else the second.
#[verifier::external_body]
pub(crate) fn min_key(a: i64, b: i64) -> (r: i64)
    ensures
        r == (if a < b { a } else { b }),
{
    partial_min_max::min(a, b)
}

/// Relies on partial_min_max::max: the first argument when it is the
/// larger, else the second.
#[verifier::external_body]
pub(crate) fn max_key(a: i64, b: i64) -> (r: i64)
    ensures
        r == (if a > b { a } else { b }),
{
    partial_min_max::max(a, b)
}

} // verus!
