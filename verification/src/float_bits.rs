//! Ordering of IEEE-754 binary32 values held by their bit pattern.
//!
//! A distance or a depth computed by the renderer is an `f32`; the logic in
//! this crate only stores such values or compares them.  It therefore holds
//! the value's encoding (`f32::to_bits`) as a `u32` and compares encodings
//! exactly as IEEE 754 (and so Rust's `<` on `f32`) compares the values:
//! a NaN is unordered with everything, `-0.0` equals `+0.0`, and otherwise
//! values are ordered by sign and magnitude.
use vstd::prelude::*;

verus! {

/// Encoding of `0.0_f32`.
pub const ZERO_BITS: u32 = 0;

/// Encoding of `1.0_f32`.
pub const ONE_BITS: u32 = 0x3f80_0000;

/// Encoding of `f32::INFINITY`.
pub const INFINITY_BITS: u32 = 0x7f80_0000;

/// Encoding of `f32::NEG_INFINITY`.
pub const NEG_INFINITY_BITS: u32 = 0xff80_0000;

/// Whether the sign bit of the encoding is set.
pub open spec fn sign_set(bits: u32) -> bool {
    bits >= 0x8000_0000
}

/// The encoding with its sign bit cleared: exponent and mantissa.
pub open spec fn magnitude(bits: u32) -> int {
    (bits % 0x8000_0000) as int
}

/// A NaN has all exponent bits set and a non-zero mantissa.
pub open spec fn is_nan(bits: u32) -> bool {
    magnitude(bits) > 0x7f80_0000
}

/// For non-NaN encodings, an integer that orders them as their values are
/// ordered (both zeros map to 0).
pub open spec fn order_key(bits: u32) -> int {
    if sign_set(bits) {
        -magnitude(bits)
    } else {
        magnitude(bits)
    }
}

/// `a < b` on the values that the encodings stand for.
pub open spec fn lt(a: u32, b: u32) -> bool {
    !is_nan(a) && !is_nan(b) && order_key(a) < order_key(b)
}

/// `a <= b` on the values that the encodings stand for.
pub open spec fn le(a: u32, b: u32) -> bool {
    !is_nan(a) && !is_nan(b) && order_key(a) <= order_key(b)
}

/// `a > b` on the values that the encodings stand for.
pub open spec fn gt(a: u32, b: u32) -> bool {
    lt(b, a)
}

fn key_of(bits: u32) -> (k: i64)
    requires
        !is_nan(bits),
    ensures
        k == order_key(bits),
{
    let m: i64 = (bits % 0x8000_0000) as i64;
    if bits >= 0x8000_0000 {
        -m
    } else {
        m
    }
}

/// Whether the value encoded by `bits` is a NaN.
pub fn bits_is_nan(bits: u32) -> (r: bool)
    ensures
        r == is_nan(bits),
{
    bits % 0x8000_0000 > 0x7f80_0000
}

/// Compares two encoded `f32` values with `<`.
pub fn bits_lt(a: u32, b: u32) -> (r: bool)
    ensures
        r == lt(a, b),
{
    if bits_is_nan(a) || bits_is_nan(b) {
        false
    } else {
        key_of(a) < key_of(b)
    }
}

/// Compares two encoded `f32` values with `<=`.
pub fn bits_le(a: u32, b: u32) -> (r: bool)
    ensures
        r == le(a, b),
{
    if bits_is_nan(a) || bits_is_nan(b) {
        false
    } else {
        key_of(a) <= key_of(b)
    }
}

/// `f32::min`: the smaller value, ignoring a NaN operand (a NaN only when
/// both are).  Of two equal values (`-0.0` and `+0.0`) it keeps `a`; `std`
/// leaves that choice open.
pub open spec fn min_ignoring_nan(a: u32, b: u32) -> u32 {
    if is_nan(a) {
        b
    } else if is_nan(b) {
        a
    } else if lt(b, a) {
        b
    } else {
        a
    }
}

/// `f32::max`: the larger value, ignoring a NaN operand (a NaN only when
/// both are).  Of two equal values it keeps `a`.
pub open spec fn max_ignoring_nan(a: u32, b: u32) -> u32 {
    if is_nan(a) {
        b
    } else if is_nan(b) {
        a
    } else if lt(a, b) {
        b
    } else {
        a
    }
}

/// The smaller of two encoded values, ignoring a NaN, as `f32::min`.
pub fn bits_min(a: u32, b: u32) -> (r: u32)
    ensures
        r == min_ignoring_nan(a, b),
{
    if bits_is_nan(a) {
        b
    } else if bits_is_nan(b) {
        a
    } else if bits_lt(b, a) {
        b
    } else {
        a
    }
}

/// The larger of two encoded values, ignoring a NaN, as `f32::max`.
pub fn bits_max(a: u32, b: u32) -> (r: u32)
    ensures
        r == max_ignoring_nan(a, b),
{
    if bits_is_nan(a) {
        b
    } else if bits_is_nan(b) {
        a
    } else if bits_lt(a, b) {
        b
    } else {
        a
    }
}

/// `<` on encodings is a strict order on the non-NaN values.
pub proof fn lemma_lt_strict_order(a: u32, b: u32, c: u32)
    ensures
        !lt(a, a),
        lt(a, b) ==> !lt(b, a),
        lt(a, b) && lt(b, c) ==> lt(a, c),
{
}

} // verus!
