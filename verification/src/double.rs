//! IEEE 754 double-precision numbers, held as their 64 bit patterns.
//!
//! Distances and frame rates arrive in double precision. This module reads
//! such a number from its bits, orders two of them as the hardware does, and
//! divides a whole number by one, rounding and truncating exactly as the
//! double-precision quotient and its conversion to a 32-bit integer do.

use crate::decimal::{
    digits_of, digits_value, double_digits, numeral, padded_numeral, write_digits,
    write_six_digits,
};
use crate::rounding::{
    bit_length, divide_rounded, floor_limited, lemma_bit_length_below, lemma_bit_length_bounds,
    lemma_pow2_wide, limited_floor, nearest_count, nearest_multiple, normalizing_shift,
    power_of_two, rounded_quotient, saturate, signed_saturated,
};
use vstd::arithmetic::div_mod::{
    lemma_basic_div, lemma_div_multiples_vanish, lemma_mod_multiples_basic, lemma_small_mod,
};
use crate::packed::{lemma_packed_order, lemma_packed_value_bounds, packed_value};
use vstd::arithmetic::power2::{
    lemma2_to64, lemma2_to64_rest, lemma_pow2_pos, lemma_pow2_strictly_increases,
    lemma_pow2_unfold, pow2,
};
use vstd::prelude::*;

verus! {

/// The bits of positive infinity.
pub const INFINITY: u64 = 0x7ff0_0000_0000_0000;

/// The number of significant binary digits of a double-precision number.
pub const PRECISION: u32 = 53;

/// The character `-`.
pub const MINUS: u8 = 45;

/// The character `.`.
pub const POINT: u8 = 46;

/// How many parts a whole is cut into by six decimals.
pub const MILLION: u32 = 1_000_000;

/// The bits without the sign.
pub open spec fn magnitude_bits(bits: u64) -> nat {
    (bits % 0x8000_0000_0000_0000) as nat
}

/// Whether the sign bit is set.
pub open spec fn is_negative(bits: u64) -> bool {
    bits >= 0x8000_0000_0000_0000
}

/// Whether the bits hold no number.
pub open spec fn is_nan(bits: u64) -> bool {
    magnitude_bits(bits) > INFINITY
}

/// Whether the bits hold an infinity.
pub open spec fn is_infinite(bits: u64) -> bool {
    magnitude_bits(bits) == INFINITY
}

/// Whether the bits hold a finite number.
pub open spec fn is_finite(bits: u64) -> bool {
    magnitude_bits(bits) < INFINITY
}

/// Whether the bits hold zero, of either sign.
pub open spec fn is_zero(bits: u64) -> bool {
    magnitude_bits(bits) == 0
}

/// The significand of a finite number: its magnitude is
/// `significand * 2^exponent`.
pub open spec fn significand(bits: u64) -> nat {
    let m = magnitude_bits(bits);
    if m < 0x10_0000_0000_0000 {
        m
    } else {
        0x10_0000_0000_0000 + m % 0x10_0000_0000_0000
    }
}

/// The exponent of a finite number: its magnitude is
/// `significand * 2^exponent`.
pub open spec fn exponent(bits: u64) -> int {
    let m = magnitude_bits(bits);
    if m < 0x10_0000_0000_0000 {
        -1074
    } else {
        m / 0x10_0000_0000_0000 - 1075
    }
}

/// The value of a finite number, in units of `2^-1074`, the least magnitude
/// of double precision.
pub open spec fn value_of(bits: u64) -> int {
    let magnitude = significand(bits) * pow2((exponent(bits) + 1074) as nat);
    if is_negative(bits) {
        -magnitude
    } else {
        magnitude as int
    }
}

/// A whole number that orders the numbers as their values do: the magnitude
/// bits, negated under a sign. Both zeros get 0.
pub open spec fn order_key(bits: u64) -> int {
    if is_negative(bits) {
        -(magnitude_bits(bits) as int)
    } else {
        magnitude_bits(bits) as int
    }
}

/// `a < b` as the hardware decides it: false where either holds no number.
pub open spec fn less_than(a: u64, b: u64) -> bool {
    !is_nan(a) && !is_nan(b) && order_key(a) < order_key(b)
}

/// The whole number `num` divided by the number in `divisor`, in double
/// precision, as a 32-bit signed number: the quotient rounded to double
/// precision, its fraction dropped, and the whole saturated. A division by
/// zero gives the bound of the zero's sign; no number gives 0.
pub open spec fn truncated_quotient(num: nat, divisor: u64) -> int {
    if num == 0 || is_nan(divisor) || is_infinite(divisor) {
        0
    } else if is_zero(divisor) {
        if is_negative(divisor) {
            -0x8000_0000
        } else {
            0x7fff_ffff
        }
    } else {
        let den = significand(divisor);
        let shift = normalizing_shift(num, den, PRECISION as nat);
        let quotient = rounded_quotient(num, den, PRECISION as nat);
        signed_saturated(
            is_negative(divisor),
            limited_floor(quotient, -(shift as int) - exponent(divisor)),
        )
    }
}

/// The magnitude of a finite number in millionths, rounded to the nearest
/// whole number of them, halves to the even one.
pub open spec fn millionths(bits: u64) -> nat {
    if exponent(bits) >= 0 {
        significand(bits) * pow2(exponent(bits) as nat) * MILLION as nat
    } else {
        nearest_count(significand(bits) * MILLION as nat, pow2((-exponent(bits)) as nat))
    }
}

/// The sign of a number as text: `-` under a set sign bit, else nothing.
pub open spec fn sign_text(bits: u64) -> Seq<u8> {
    if is_negative(bits) {
        seq![MINUS]
    } else {
        Seq::empty()
    }
}

/// A number as text in fixed-point notation with six decimals: the sign,
/// the whole part without zeros in front, a point, and six digits of
/// millionths, rounded to nearest with halves to even. An infinity is
/// `inf` under its sign; what is no number is `NaN`.
pub open spec fn six_decimals(bits: u64) -> Seq<u8> {
    if is_nan(bits) {
        seq![78u8, 97u8, 78u8]
    } else if is_infinite(bits) {
        sign_text(bits) + seq![105u8, 110u8, 102u8]
    } else {
        sign_text(bits) + numeral(millionths(bits) / (MILLION as nat)) + seq![POINT]
            + padded_numeral(millionths(bits) % (MILLION as nat), 6)
    }
}

/// Comparing by the bits is comparing by the values: of two finite numbers
/// the first is less than the second exactly where its value is the lesser.
/// An infinity lies beyond every finite number of its sign.
pub proof fn lemma_less_than_orders_values(a: u64, b: u64)
    requires
        is_finite(a),
        is_finite(b),
    ensures
        less_than(a, b) <==> value_of(a) < value_of(b),
        !less_than(a, b) && !less_than(b, a) <==> value_of(a) == value_of(b),
        less_than(a, INFINITY),
        less_than((INFINITY + 0x8000_0000_0000_0000) as u64, a),
{
    lemma2_to64();
    lemma2_to64_rest();
    let ma = magnitude_bits(a);
    let mb = magnitude_bits(b);
    assert(significand(a) * pow2((exponent(a) + 1074) as nat) == packed_value(ma, 52));
    assert(significand(b) * pow2((exponent(b) + 1074) as nat) == packed_value(mb, 52));
    lemma_packed_order(ma, mb, 52);
    lemma_packed_order(ma, 0, 52);
    lemma_packed_order(mb, 0, 52);
    lemma_packed_value_bounds(0, 52);
}

/// The millionths of a number are the whole number of them nearest to it: a
/// number of at least `2^52` is whole itself, and any other lies no more
/// than half a millionth from the millionths given, and where it lies
/// exactly halfway they are even.
pub proof fn lemma_millionths_are_nearest(bits: u64)
    requires
        is_finite(bits),
    ensures
        exponent(bits) >= 0 ==> millionths(bits) == significand(bits) * pow2(
            exponent(bits) as nat,
        ) * MILLION,
        exponent(bits) < 0 ==> ({
            let unit = pow2((-exponent(bits)) as nat);
            let exact = significand(bits) * MILLION;
            let given = millionths(bits) * unit;
            &&& 2 * (given - exact) <= unit
            &&& 2 * (exact - given) <= unit
            &&& 2 * (given - exact) == unit || 2 * (exact - given) == unit ==> millionths(bits) % 2
                == 0
        }),
{
    if exponent(bits) < 0 {
        lemma_pow2_pos((-exponent(bits)) as nat);
        crate::rounding::lemma_nearest_count_is_nearest(
            significand(bits) * MILLION as nat,
            pow2((-exponent(bits)) as nat),
        );
    }
}

/// Decides `a < b`.
pub fn lt(a: u64, b: u64) -> (r: bool)
    ensures
        r == less_than(a, b),
{
    let ma: u64 = a % 0x8000_0000_0000_0000;
    let mb: u64 = b % 0x8000_0000_0000_0000;
    if ma > INFINITY || mb > INFINITY {
        return false;
    }
    let a_negative: bool = a >= 0x8000_0000_0000_0000;
    let b_negative: bool = b >= 0x8000_0000_0000_0000;
    if a_negative {
        if b_negative {
            ma > mb
        } else {
            ma > 0 || mb > 0
        }
    } else {
        if b_negative {
            false
        } else {
            ma < mb
        }
    }
}

/// Computes `truncated_quotient`: what dividing `num`, converted to double
/// precision, by `divisor` and converting the quotient to a 32-bit signed
/// number gives.
pub fn divide_truncated(num: u32, divisor: u64) -> (r: i32)
    ensures
        r == truncated_quotient(num as nat, divisor),
{
    let m: u64 = divisor % 0x8000_0000_0000_0000;
    let negative: bool = divisor >= 0x8000_0000_0000_0000;
    if num == 0 || m >= INFINITY {
        return 0;
    }
    if m == 0 {
        return if negative {
            i32::MIN
        } else {
            i32::MAX
        };
    }
    let den: u64 = if m < 0x10_0000_0000_0000 {
        m
    } else {
        0x10_0000_0000_0000 + m % 0x10_0000_0000_0000
    };
    let exp: i32 = if m < 0x10_0000_0000_0000 {
        -1074
    } else {
        (m / 0x10_0000_0000_0000) as i32 - 1075
    };
    proof {
        lemma2_to64();
        lemma2_to64_rest();
        lemma_bit_length_below(num as nat, 32);
        lemma_bit_length_below(den as nat, 53);
        lemma_bit_length_bounds(den as nat);
        assert(bit_length(den as nat) >= 1);
    }
    let (quotient, shift) = divide_rounded(num as u128, den as u128, PRECISION);
    saturate(negative, floor_limited(quotient, -(shift as i32) - exp))
}

/// Writes a number in fixed-point notation with six decimals, in ASCII.
pub fn format_six_decimals(bits: u64) -> (text: Vec<u8>)
    ensures
        text@ == six_decimals(bits),
{
    let m: u64 = bits % 0x8000_0000_0000_0000;
    let negative: bool = bits >= 0x8000_0000_0000_0000;
    let mut text: Vec<u8> = Vec::new();
    if m > INFINITY {
        text.push(78);
        text.push(97);
        text.push(78);
        assert(text@ =~= seq![78u8, 97u8, 78u8]);
        return text;
    }
    if negative {
        text.push(MINUS);
    }
    assert(text@ =~= sign_text(bits));
    if m == INFINITY {
        text.push(105);
        text.push(110);
        text.push(102);
        assert(text@ =~= sign_text(bits) + seq![105u8, 110u8, 102u8]);
        return text;
    }
    let sig: u64 = if m < 0x10_0000_0000_0000 {
        m
    } else {
        0x10_0000_0000_0000 + m % 0x10_0000_0000_0000
    };
    let exp: i32 = if m < 0x10_0000_0000_0000 {
        -1074
    } else {
        (m / 0x10_0000_0000_0000) as i32 - 1075
    };
    let ghost micro = millionths(bits);
    if exp >= 0 {
        let mut digits: Vec<u8> = digits_of(sig as u128);
        let mut doubled: i32 = 0;
        proof {
            lemma2_to64();
            assert(sig * 1 == sig) by (nonlinear_arith);
        }
        while doubled < exp
            invariant
                0 <= doubled <= exp,
                crate::decimal::canonical(digits@),
                digits_value(digits@) == sig * pow2(doubled as nat),
            decreases exp - doubled,
        {
            proof {
                lemma_pow2_unfold((doubled + 1) as nat);
                let p = pow2(doubled as nat);
                assert(sig * (2 * p) == 2 * (sig * p)) by (nonlinear_arith);
            }
            digits = double_digits(&digits);
            doubled = doubled + 1;
        }
        proof {
            let whole = sig * pow2(exp as nat);
            assert(micro == whole * MILLION);
            assert(whole * MILLION == MILLION * whole) by (nonlinear_arith);
            lemma_div_multiples_vanish(whole as int, MILLION as int);
            lemma_mod_multiples_basic(whole as int, MILLION as int);
        }
        write_digits(&mut text, &digits);
        text.push(POINT);
        write_six_digits(&mut text, 0);
    } else {
        let k: i32 = -exp;
        let scaled: u128 = (sig as u128) * (MILLION as u128);
        let rounded: u128 = if k >= 127 {
            proof {
                lemma_pow2_wide();
                if k > 127 {
                    lemma_pow2_strictly_increases(127, k as nat);
                }
                lemma_basic_div(scaled as int, pow2(k as nat) as int);
                lemma_small_mod(scaled as nat, pow2(k as nat));
            }
            0
        } else {
            proof {
                lemma_pow2_pos(k as nat);
            }
            nearest_multiple(scaled, power_of_two(k as u32))
        };
        assert(rounded == micro);
        let digits: Vec<u8> = digits_of(rounded / (MILLION as u128));
        write_digits(&mut text, &digits);
        text.push(POINT);
        write_six_digits(&mut text, (rounded % (MILLION as u128)) as u32);
    }
    proof {
        assert(text@ =~= six_decimals(bits));
    }
    text
}

} // verus!
