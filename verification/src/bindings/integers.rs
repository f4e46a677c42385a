//! Whole numbers from double precision encodings.
use vstd::prelude::*;

use crate::number::{f64_finite, f64_value_key, F64_SIGN};
use crate::text::join;

verus! {

/// A power of two.
pub open spec fn power(exponent: nat) -> nat
    decreases exponent,
{
    if exponent == 0 {
        1
    } else {
        2 * power((exponent - 1) as nat)
    }
}

/// Two to the power of 52: the number of encodings with the same exponent.
pub const FRACTIONS: u64 = 0x10_0000_0000_0000;

/// Whether `bits` encodes the whole number `value` below two to the power of 53: both zeros encode
/// 0, and a number from two to the `k` up to twice that has exponent `k`.
pub open spec fn encodes(bits: u64, value: nat) -> bool {
    if value == 0 {
        bits == 0 || bits == F64_SIGN
    } else {
        exists|k: nat|
            k <= 52 && #[trigger] power(k) <= value < 2 * power(k) && bits == (1023 + k) * FRACTIONS
                + (value - power(k)) * power((52 - k) as nat)
    }
}

/// Facts about powers of two.
proof fn lemma_power(k: nat)
    requires
        k <= 52,
    ensures
        power(k) * power((52 - k) as nat) == FRACTIONS,
        power(k) >= 1,
        power((52 - k) as nat) >= 1,
        power(k) <= FRACTIONS,
    decreases 52 - k,
{
    lemma_power_positive(k);
    lemma_power_positive((52 - k) as nat);
    if k == 52 {
        assert(power(52) == FRACTIONS) by {
            reveal_with_fuel(power, 53);
        }
    } else {
        lemma_power(k + 1);
        let low = power(k);
        let high = power((52 - k - 1) as nat);
        assert((2 * low) * high == low * (2 * high)) by (nonlinear_arith);
    }
    let other = power((52 - k) as nat);
    let own = power(k);
    assert(own <= own * other) by (nonlinear_arith)
        requires
            other >= 1,
            own >= 1,
    ;
}

/// Powers are positive.
proof fn lemma_power_positive(k: nat)
    ensures
        power(k) >= 1,
    decreases k,
{
    if k > 0 {
        lemma_power_positive((k - 1) as nat);
    }
}

/// A power of two.
fn two_to(exponent: u64) -> (result: u64)
    requires
        exponent <= 52,
    ensures
        result == power(exponent as nat),
{
    let mut result: u64 = 1;
    let mut i: u64 = 0;
    while i < exponent
        invariant
            i <= exponent <= 52,
            result == power(i as nat),
        decreases exponent - i,
    {
        proof {
            lemma_power((i + 1) as nat);
        }
        result = result * 2;
        i += 1;
    }
    result
}

/// The whole number below two to the power of 53 that an encoding stands for.
pub fn decode_integer(bits: u64) -> (value: Option<u64>)
    ensures
        value matches Some(number) ==> encodes(bits, number as nat) && number < 2 * FRACTIONS,
        value is None ==> forall|number: nat| !(#[trigger] encodes(bits, number)),
{
    if bits == 0 || bits == F64_SIGN {
        return Some(0);
    }
    let exponent: u64 = bits / FRACTIONS;
    let fraction: u64 = bits % FRACTIONS;
    if exponent < 1023 || exponent > 1075 {
        proof {
            assert forall|number: nat| !(#[trigger] encodes(bits, number)) by {
                if encodes(bits, number) {
                    let k = choose|k: nat|
                        k <= 52 && #[trigger] power(k) <= number < 2 * power(k) && bits == (1023
                            + k) * FRACTIONS + (number - power(k)) * power((52 - k) as nat);
                    lemma_parts(bits, number, k);
                }
            }
        }
        return None;
    }
    let k: u64 = exponent - 1023;
    let unit: u64 = two_to(52 - k);
    let low: u64 = two_to(k);
    proof {
        lemma_power(k as nat);
    }
    if fraction % unit != 0 {
        proof {
            assert forall|number: nat| !(#[trigger] encodes(bits, number)) by {
                if encodes(bits, number) {
                    let other = choose|other: nat|
                        other <= 52 && #[trigger] power(other) <= number < 2 * power(other) && bits
                            == (1023 + other) * FRACTIONS + (number - power(other)) * power(
                            (52 - other) as nat,
                        );
                    lemma_parts(bits, number, other);
                    assert(other == k);
                    let rest = number - power(other);
                    assert(fraction == rest * unit);
                    assert((rest * unit) % (unit as int) == 0) by (nonlinear_arith)
                        requires
                            unit >= 1,
                            rest >= 0,
                    ;
                }
            }
        }
        return None;
    }
    let rest: u64 = fraction / unit;
    proof {
        assert(rest * unit == fraction) by (nonlinear_arith)
            requires
                rest == fraction / unit,
                fraction % unit == 0,
                unit >= 1,
        ;
        assert(rest < low) by (nonlinear_arith)
            requires
                rest * unit == fraction,
                fraction < FRACTIONS,
                low * unit == FRACTIONS,
                unit >= 1,
        ;
        let number = (low + rest) as nat;
        assert(power(k as nat) <= number < 2 * power(k as nat));
        assert(bits == (1023 + k) * FRACTIONS + fraction) by (nonlinear_arith)
            requires
                exponent == bits / FRACTIONS,
                fraction == bits % FRACTIONS,
                k == exponent - 1023,
                exponent >= 1023,
        ;
        assert(encodes(bits, number));
    }
    Some(low + rest)
}

/// The exponent and the fraction of an encoding.
proof fn lemma_parts(bits: u64, number: nat, k: nat)
    requires
        k <= 52,
        power(k) <= number < 2 * power(k),
        bits == (1023 + k) * FRACTIONS + (number - power(k)) * power((52 - k) as nat),
    ensures
        bits / FRACTIONS == 1023 + k,
        bits % FRACTIONS == (number - power(k)) * power((52 - k) as nat),
{
    lemma_power(k);
    let unit = power((52 - k) as nat);
    let low = power(k);
    let rest = number - low;
    let fraction = rest * unit;
    assert(0 <= fraction < FRACTIONS) by (nonlinear_arith)
        requires
            0 <= rest < low,
            low * unit == FRACTIONS,
            unit >= 1,
            fraction == rest * unit,
    ;
    vstd::arithmetic::div_mod::lemma_fundamental_div_mod_converse(
        bits as int,
        FRACTIONS as int,
        (1023 + k) as int,
        fraction,
    );
}

/// The greatest whole number that scripts can hold exactly.
pub const MAX_SAFE_INTEGER: u64 = 9_007_199_254_740_991;

/// A whole number from the encoding of a number: it has to be from 0 to the greatest that scripts
/// can hold exactly.
pub fn parse_safe_usize(bits: u64, name: &str) -> (result: core::result::Result<usize, String>)
    ensures
        match result {
            Ok(value) => encodes(bits, value as nat) && value <= MAX_SAFE_INTEGER,
            Err(message) => message@ == name@ + " 必须是 JavaScript 安全范围内的非负整数"@ && forall|
                value: nat,
            | #[trigger] encodes(bits, value) ==> value > MAX_SAFE_INTEGER || value > usize::MAX,
        },
{
    match decode_integer(bits) {
        Some(value) => {
            if value <= MAX_SAFE_INTEGER && value <= usize::MAX as u64 {
                Ok(value as usize)
            } else {
                proof {
                    assert forall|other: nat| #[trigger] encodes(bits, other) implies other
                        > MAX_SAFE_INTEGER || other > usize::MAX by {
                        law_encoding_is_unique(bits, value as nat, other);
                    }
                }
                Err(join(name, " 必须是 JavaScript 安全范围内的非负整数"))
            }
        },
        None => Err(join(name, " 必须是 JavaScript 安全范围内的非负整数")),
    }
}

/// An encoding stands for one number.
pub proof fn law_encoding_is_unique(bits: u64, a: nat, b: nat)
    requires
        encodes(bits, a),
        encodes(bits, b),
    ensures
        a == b,
{
    if a > 0 && b > 0 {
        let k = choose|k: nat|
            k <= 52 && #[trigger] power(k) <= a < 2 * power(k) && bits == (1023 + k) * FRACTIONS + (
            a - power(k)) * power((52 - k) as nat);
        let m = choose|m: nat|
            m <= 52 && #[trigger] power(m) <= b < 2 * power(m) && bits == (1023 + m) * FRACTIONS + (
            b - power(m)) * power((52 - m) as nat);
        lemma_parts(bits, a, k);
        lemma_parts(bits, b, m);
        assert(k == m);
        lemma_power(k);
        let unit = power((52 - k) as nat);
        let x = a - power(k);
        let y = b - power(k);
        assert(x == y) by (nonlinear_arith)
            requires
                x * unit == y * unit,
                unit >= 1,
        ;
    } else if a == 0 && b > 0 {
        lemma_positive_encoding(bits, b);
    } else if b == 0 && a > 0 {
        lemma_positive_encoding(bits, a);
    }
}

/// A positive number is not encoded as a zero.
proof fn lemma_positive_encoding(bits: u64, value: nat)
    requires
        value > 0,
        encodes(bits, value),
    ensures
        bits != 0,
        bits != F64_SIGN,
{
    let k = choose|k: nat|
        k <= 52 && #[trigger] power(k) <= value < 2 * power(k) && bits == (1023 + k) * FRACTIONS + (
        value - power(k)) * power((52 - k) as nat);
    lemma_parts(bits, value, k);
    assert(F64_SIGN / FRACTIONS == 2048) by (nonlinear_arith);
}

/// Different encodings of equal numbers are the two zeros.
pub(crate) proof fn lemma_zero_encoding(a: u64, b: u64, x: nat, y: nat)
    requires
        a != b,
        f64_finite(a),
        f64_finite(b),
        f64_value_key(a) == f64_value_key(b),
        encodes(a, x),
        encodes(b, y),
    ensures
        x == y,
{
    if x > 0 {
        lemma_positive_encoding(a, x);
    }
    if y > 0 {
        lemma_positive_encoding(b, y);
    }
}

/// Different encodings of equal numbers encode the same whole numbers.
pub(crate) proof fn lemma_zero_safety(a: u64, b: u64, x: nat)
    requires
        a != b,
        f64_finite(a),
        f64_finite(b),
        f64_value_key(a) == f64_value_key(b),
        encodes(a, x),
    ensures
        encodes(b, x),
{
    if x > 0 {
        lemma_positive_encoding(a, x);
    }
}

} // verus!
