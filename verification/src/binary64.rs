//! IEEE-754 binary64 values carried by their bit patterns.
//!
//! Weights, prices and scores are binary64 numbers. The library stores and
//! compares them through their bit patterns (`f64::to_bits`), which is exact:
//! the predicates below state, on the bit pattern, what the corresponding
//! operation on the binary64 value answers.

use vstd::prelude::*;

verus! {

/// Bit pattern of `0.0`.
pub const ZERO_BITS: u64 = 0x0000_0000_0000_0000;

/// Bit pattern of `1.0`.
pub const ONE_BITS: u64 = 0x3FF0_0000_0000_0000;

/// Bit pattern of the positive infinity; magnitudes above it are NaNs.
pub const INFINITY_BITS: u64 = 0x7FF0_0000_0000_0000;

/// The sign bit.
pub const SIGN_BIT: u64 = 0x8000_0000_0000_0000;

/// The bit pattern without its sign bit.
pub open spec fn magnitude(bits: u64) -> int {
    bits as int % 0x8000_0000_0000_0000
}

/// `f64::is_nan` on the value with these bits.
pub open spec fn is_nan(bits: u64) -> bool {
    magnitude(bits) > INFINITY_BITS as int
}

/// `f64::is_finite` on the value with these bits.
pub open spec fn is_finite(bits: u64) -> bool {
    magnitude(bits) < INFINITY_BITS as int
}

/// The value is `0.0` or `-0.0`.
pub open spec fn is_zero(bits: u64) -> bool {
    magnitude(bits) == 0
}

/// The key by which `f64::total_cmp` orders values: the bit pattern read as a
/// signed integer, with all bits but the sign flipped for negative values.
pub open spec fn order_key(bits: u64) -> int {
    if bits < SIGN_BIT {
        bits as int
    } else {
        0x7FFF_FFFF_FFFF_FFFF - bits as int
    }
}

/// `a < b` on binary64 values: false when either is NaN, and `-0.0` equals `0.0`.
pub open spec fn ieee_lt(a: u64, b: u64) -> bool {
    &&& !is_nan(a)
    &&& !is_nan(b)
    &&& !(is_zero(a) && is_zero(b))
    &&& order_key(a) < order_key(b)
}

/// `a == b` on binary64 values: never for a NaN, and `-0.0` equals `0.0`.
pub open spec fn ieee_eq(a: u64, b: u64) -> bool {
    &&& !is_nan(a)
    &&& !is_nan(b)
    &&& (a == b || (is_zero(a) && is_zero(b)))
}

/// `a <= b` on binary64 values.
pub open spec fn ieee_le(a: u64, b: u64) -> bool {
    &&& !is_nan(a)
    &&& !is_nan(b)
    &&& ((is_zero(a) && is_zero(b)) || order_key(a) <= order_key(b))
}

/// `a > b` on binary64 values.
pub open spec fn ieee_gt(a: u64, b: u64) -> bool {
    ieee_lt(b, a)
}

/// The value is finite and lies in `0.0..=1.0`: what weights and decays must be.
pub open spec fn is_unit_interval(bits: u64) -> bool {
    is_finite(bits) && ieee_le(ZERO_BITS, bits) && ieee_le(bits, ONE_BITS)
}

/// The value is finite and not below `0.0`: what prices must be.
pub open spec fn is_valid_price(bits: u64) -> bool {
    is_finite(bits) && !ieee_lt(bits, ZERO_BITS)
}

/// The keys of `order_key`: zeros are the keys `-1` (`-0.0`) and `0` (`0.0`),
/// NaNs lie outside the keys of the infinities.
pub proof fn lemma_order_key(bits: u64)
    ensures
        bits < SIGN_BIT ==> magnitude(bits) == bits && order_key(bits) == bits,
        bits >= SIGN_BIT ==> magnitude(bits) == bits - SIGN_BIT && order_key(bits) == -1 - magnitude(bits),
        is_zero(bits) <==> (order_key(bits) == 0 || order_key(bits) == -1),
{
}

/// If `b` is not below `a` and `c` is above `b`, then `c` is not below `a`.
pub proof fn lemma_not_gt_then_gt(a: u64, b: u64, c: u64)
    requires
        !ieee_gt(a, b),
        ieee_gt(c, b),
    ensures
        !ieee_gt(a, c),
{
    lemma_order_key(a);
    lemma_order_key(b);
    lemma_order_key(c);
}

/// Computes `magnitude`.
pub fn magnitude_of(bits: u64) -> (m: u64)
    ensures
        m as int == magnitude(bits),
{
    bits % 0x8000_0000_0000_0000
}

/// `f64::is_finite` on the bit pattern.
pub fn finite(bits: u64) -> (r: bool)
    ensures
        r == is_finite(bits),
{
    magnitude_of(bits) < INFINITY_BITS
}

/// `f64::is_nan` on the bit pattern.
pub fn nan(bits: u64) -> (r: bool)
    ensures
        r == is_nan(bits),
{
    magnitude_of(bits) > INFINITY_BITS
}

/// The key of `order_key` as an `i128`.
pub fn total_order_key(bits: u64) -> (k: i128)
    ensures
        k as int == order_key(bits),
{
    if bits < SIGN_BIT {
        bits as i128
    } else {
        0x7FFF_FFFF_FFFF_FFFFi128 - bits as i128
    }
}

/// `a < b` on binary64 values.
pub fn less_than(a: u64, b: u64) -> (r: bool)
    ensures
        r == ieee_lt(a, b),
{
    if nan(a) || nan(b) {
        return false;
    }
    if magnitude_of(a) == 0 && magnitude_of(b) == 0 {
        return false;
    }
    total_order_key(a) < total_order_key(b)
}

/// `a == b` on binary64 values.
pub fn equal(a: u64, b: u64) -> (r: bool)
    ensures
        r == ieee_eq(a, b),
{
    if nan(a) || nan(b) {
        return false;
    }
    a == b || (magnitude_of(a) == 0 && magnitude_of(b) == 0)
}

/// `a <= b` on binary64 values.
pub fn less_or_equal(a: u64, b: u64) -> (r: bool)
    ensures
        r == ieee_le(a, b),
{
    if nan(a) || nan(b) {
        return false;
    }
    if magnitude_of(a) == 0 && magnitude_of(b) == 0 {
        return true;
    }
    total_order_key(a) <= total_order_key(b)
}

/// Finite and in `0.0..=1.0`.
pub fn in_unit_interval(bits: u64) -> (r: bool)
    ensures
        r == is_unit_interval(bits),
{
    finite(bits) && less_or_equal(ZERO_BITS, bits) && less_or_equal(bits, ONE_BITS)
}

/// Finite and not below `0.0`.
pub fn valid_price(bits: u64) -> (r: bool)
    ensures
        r == is_valid_price(bits),
{
    finite(bits) && !less_than(bits, ZERO_BITS)
}

} // verus!
