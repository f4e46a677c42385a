//! Floating-point numbers as bit patterns.
//!
//! The library carries single and double precision numbers as the unsigned integers of their
//! IEEE 754 encodings. Classifying and comparing them are operations on those integers.
use vstd::prelude::*;

verus! {

/// The sign bit of a single precision number.
pub const F32_SIGN: u32 = 0x8000_0000;

/// The encoding of single precision infinity; above it, up to the sign bit, are the NaNs.
pub const F32_INFINITY: u32 = 0x7f80_0000;

/// The sign bit of a double precision number.
pub const F64_SIGN: u64 = 0x8000_0000_0000_0000;

/// The encoding of double precision infinity; above it, up to the sign bit, are the NaNs.
pub const F64_INFINITY: u64 = 0x7ff0_0000_0000_0000;

/// The encoding of double precision `1.0`.
pub const F64_ONE: u64 = 0x3ff0_0000_0000_0000;

/// The magnitude bits of a single precision number: its encoding without the sign.
pub open spec fn f32_magnitude(bits: u32) -> int {
    if bits < F32_SIGN { bits as int } else { bits - F32_SIGN }
}

/// Whether the encoded number is neither infinite nor a NaN.
pub open spec fn f32_finite(bits: u32) -> bool {
    f32_magnitude(bits) < F32_INFINITY
}

/// Whether the encoded number is greater than zero; a NaN is not.
pub open spec fn f32_positive(bits: u32) -> bool {
    0 < bits <= F32_INFINITY
}

/// The place of an encoded number in the total order of single precision numbers, in which
/// `-0.0` comes before `0.0`, a negative NaN first and a positive NaN last.
pub open spec fn f32_total_key(bits: u32) -> int {
    if bits < F32_SIGN { bits as int } else { 0x7fff_ffff - bits }
}

/// Whether the encoded number is a NaN.
pub open spec fn f32_nan(bits: u32) -> bool {
    f32_magnitude(bits) > F32_INFINITY
}

/// An integer that orders the encoded numbers other than NaNs as their values are ordered.
/// Both zeros have the same one.
pub open spec fn f32_value_key(bits: u32) -> int {
    if bits < F32_SIGN { bits as int } else { F32_SIGN - bits }
}

/// `a < b` on the encoded numbers; false when either is a NaN.
pub open spec fn spec_f32_less(a: u32, b: u32) -> bool {
    !f32_nan(a) && !f32_nan(b) && f32_value_key(a) < f32_value_key(b)
}

/// `a >= b` on the encoded numbers; false when either is a NaN.
pub open spec fn spec_f32_at_least(a: u32, b: u32) -> bool {
    !f32_nan(a) && !f32_nan(b) && f32_value_key(a) >= f32_value_key(b)
}

/// A number brought into the range from `low` to `high`; a NaN stays.
pub open spec fn spec_f32_clamp(bits: u32, low: u32, high: u32) -> u32 {
    if spec_f32_less(bits, low) {
        low
    } else if spec_f32_less(high, bits) {
        high
    } else {
        bits
    }
}

/// The magnitude bits of a double precision number: its encoding without the sign.
pub open spec fn f64_magnitude(bits: u64) -> int {
    if bits < F64_SIGN { bits as int } else { bits - F64_SIGN }
}

/// Whether the encoded number is a NaN.
pub open spec fn f64_nan(bits: u64) -> bool {
    f64_magnitude(bits) > F64_INFINITY
}

/// Whether the encoded number is neither infinite nor a NaN.
pub open spec fn f64_finite(bits: u64) -> bool {
    f64_magnitude(bits) < F64_INFINITY
}

/// An integer that orders the encoded numbers other than NaNs as their values are ordered.
/// Both zeros have the same one.
pub open spec fn f64_value_key(bits: u64) -> int {
    if bits < F64_SIGN { bits as int } else { F64_SIGN - bits }
}

/// The place of an encoded number in the total order of double precision numbers.
pub open spec fn f64_total_key(bits: u64) -> int {
    if bits < F64_SIGN { bits as int } else { 0x7fff_ffff_ffff_ffff - bits }
}

/// `a < b` on the encoded numbers; false when either is a NaN.
pub open spec fn spec_f64_less(a: u64, b: u64) -> bool {
    !f64_nan(a) && !f64_nan(b) && f64_value_key(a) < f64_value_key(b)
}

/// `a == b` on the encoded numbers; false when either is a NaN.
pub open spec fn spec_f64_equal(a: u64, b: u64) -> bool {
    !f64_nan(a) && !f64_nan(b) && f64_value_key(a) == f64_value_key(b)
}

/// Whether the encoded single precision number is finite.
pub fn f32_is_finite(bits: u32) -> (finite: bool)
    ensures
        finite == f32_finite(bits),
{
    if bits < F32_SIGN {
        bits < F32_INFINITY
    } else {
        bits - F32_SIGN < F32_INFINITY
    }
}

/// Whether the encoded single precision number is greater than zero.
pub fn f32_is_positive(bits: u32) -> (positive: bool)
    ensures
        positive == f32_positive(bits),
{
    0 < bits && bits <= F32_INFINITY
}

/// Whether the encoded single precision number is a NaN.
pub fn f32_is_nan(bits: u32) -> (nan: bool)
    ensures
        nan == f32_nan(bits),
{
    if bits < F32_SIGN {
        bits > F32_INFINITY
    } else {
        bits - F32_SIGN > F32_INFINITY
    }
}

/// `a < b` on encoded single precision numbers.
pub fn f32_less(a: u32, b: u32) -> (less: bool)
    ensures
        less == spec_f32_less(a, b),
{
    if f32_is_nan(a) || f32_is_nan(b) {
        return false;
    }
    if a < F32_SIGN {
        b < F32_SIGN && a < b
    } else if b < F32_SIGN {
        b > 0 || a > F32_SIGN
    } else {
        a > b
    }
}

/// `a >= b` on encoded single precision numbers.
pub fn f32_at_least(a: u32, b: u32) -> (result: bool)
    ensures
        result == spec_f32_at_least(a, b),
{
    !f32_is_nan(a) && !f32_is_nan(b) && !f32_less(a, b)
}

/// A number brought into the range from `low` to `high`.
pub fn f32_clamp(bits: u32, low: u32, high: u32) -> (result: u32)
    ensures
        result == spec_f32_clamp(bits, low, high),
{
    if f32_less(bits, low) {
        low
    } else if f32_less(high, bits) {
        high
    } else {
        bits
    }
}

/// Whether `a` comes before `b` in the total order of single precision numbers.
pub fn f32_total_less(a: u32, b: u32) -> (less: bool)
    ensures
        less == (f32_total_key(a) < f32_total_key(b)),
{
    if a < F32_SIGN {
        b < F32_SIGN && a < b
    } else {
        b < F32_SIGN || a > b
    }
}

/// Whether the encoded double precision number is a NaN.
pub fn f64_is_nan(bits: u64) -> (nan: bool)
    ensures
        nan == f64_nan(bits),
{
    if bits < F64_SIGN {
        bits > F64_INFINITY
    } else {
        bits - F64_SIGN > F64_INFINITY
    }
}

/// Whether the encoded double precision number is finite.
pub fn f64_is_finite(bits: u64) -> (finite: bool)
    ensures
        finite == f64_finite(bits),
{
    if bits < F64_SIGN {
        bits < F64_INFINITY
    } else {
        bits - F64_SIGN < F64_INFINITY
    }
}

/// Whether `a` comes before `b` in the total order of double precision numbers.
pub fn f64_total_less(a: u64, b: u64) -> (less: bool)
    ensures
        less == (f64_total_key(a) < f64_total_key(b)),
{
    if a < F64_SIGN {
        b < F64_SIGN && a < b
    } else {
        b < F64_SIGN || a > b
    }
}

/// `a < b` on encoded double precision numbers.
pub fn f64_less(a: u64, b: u64) -> (less: bool)
    ensures
        less == spec_f64_less(a, b),
{
    if f64_is_nan(a) || f64_is_nan(b) {
        return false;
    }
    if a < F64_SIGN {
        b < F64_SIGN && a < b
    } else if b < F64_SIGN {
        b > 0 || a > F64_SIGN
    } else {
        a > b
    }
}

/// `a == b` on encoded double precision numbers.
pub fn f64_equal(a: u64, b: u64) -> (equal: bool)
    ensures
        equal == spec_f64_equal(a, b),
{
    if f64_is_nan(a) || f64_is_nan(b) {
        return false;
    }
    a == b || (a == 0 && b == F64_SIGN) || (a == F64_SIGN && b == 0)
}

/// `a <= b` on encoded double precision numbers.
pub fn f64_less_equal(a: u64, b: u64) -> (less: bool)
    ensures
        less == (spec_f64_less(a, b) || spec_f64_equal(a, b)),
{
    f64_less(a, b) || f64_equal(a, b)
}

/// Numbers other than NaNs are ordered by value: exactly one of less, equal and greater holds.
pub proof fn law_f64_trichotomy(a: u64, b: u64)
    requires
        !f64_nan(a),
        !f64_nan(b),
    ensures
        spec_f64_less(a, b) as int + spec_f64_equal(a, b) as int + spec_f64_less(b, a) as int == 1,
{
}

} // verus!
