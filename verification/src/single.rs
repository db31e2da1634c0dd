//! IEEE 754 single-precision numbers, held as their 32 bit patterns.
//!
//! The detector speaks in single-precision numbers. This module reads such a
//! number from its bits (sign, significand, exponent), orders two of them as
//! the hardware does, and multiplies a pixel extent by one, rounding and
//! truncating exactly as the conversion of the extent to single precision,
//! the single-precision product and the conversion back to a 32-bit integer
//! do.

use crate::rounding::{
    bit_length, floor_limited, lemma_bit_length_below, lemma_bit_length_grows,
    lemma_bit_length_unique, lemma_multiple_of_lesser_power, lemma_round_bounds,
    lemma_round_exact, lemma_round_stays_below, limited_floor, magnitude, magnitude_of,
    nearest_count,
    round_significant, round_to_precision, saturate, scaled_floor, signed_saturated, spacing,
};
use vstd::arithmetic::div_mod::{lemma_basic_div, lemma_div_is_ordered, lemma_div_multiples_vanish};
use crate::packed::{lemma_packed_order, packed_value};
use vstd::arithmetic::power2::{
    lemma2_to64, lemma_pow2_adds, lemma_pow2_pos, lemma_pow2_strictly_increases, pow2,
};
use vstd::prelude::*;

verus! {

/// The bits of `0.5`.
pub const HALF: u32 = 0x3f00_0000;

/// The bits of `1.0`.
pub const ONE: u32 = 0x3f80_0000;

/// The bits of positive infinity.
pub const INFINITY: u32 = 0x7f80_0000;

/// The number of significant binary digits of a single-precision number.
pub const PRECISION: u32 = 24;

/// The bits without the sign.
pub open spec fn magnitude_bits(bits: u32) -> nat {
    (bits % 0x8000_0000) as nat
}

/// Whether the sign bit is set.
pub open spec fn is_negative(bits: u32) -> bool {
    bits >= 0x8000_0000
}

/// Whether the bits hold no number.
pub open spec fn is_nan(bits: u32) -> bool {
    magnitude_bits(bits) > INFINITY
}

/// Whether the bits hold an infinity.
pub open spec fn is_infinite(bits: u32) -> bool {
    magnitude_bits(bits) == INFINITY
}

/// Whether the bits hold a finite number.
pub open spec fn is_finite(bits: u32) -> bool {
    magnitude_bits(bits) < INFINITY
}

/// Whether the bits hold zero, of either sign.
pub open spec fn is_zero(bits: u32) -> bool {
    magnitude_bits(bits) == 0
}

/// The significand of a finite number: its magnitude is
/// `significand * 2^exponent`.
pub open spec fn significand(bits: u32) -> nat {
    let m = magnitude_bits(bits);
    if m < 0x80_0000 {
        m
    } else {
        0x80_0000 + m % 0x80_0000
    }
}

/// The exponent of a finite number: its magnitude is
/// `significand * 2^exponent`.
pub open spec fn exponent(bits: u32) -> int {
    let m = magnitude_bits(bits);
    if m < 0x80_0000 {
        -149
    } else {
        m / 0x80_0000 - 150
    }
}

/// The value of a finite number, in units of `2^-149`, the least magnitude
/// of single precision.
pub open spec fn value_of(bits: u32) -> int {
    let magnitude = significand(bits) * pow2((exponent(bits) + 149) as nat);
    if is_negative(bits) {
        -magnitude
    } else {
        magnitude as int
    }
}

/// A whole number that orders the numbers as their values do: the magnitude
/// bits, negated under a sign. Both zeros get 0.
pub open spec fn order_key(bits: u32) -> int {
    if is_negative(bits) {
        -(magnitude_bits(bits) as int)
    } else {
        magnitude_bits(bits) as int
    }
}

/// `a < b` as the hardware decides it: false where either holds no number.
pub open spec fn less_than(a: u32, b: u32) -> bool {
    !is_nan(a) && !is_nan(b) && order_key(a) < order_key(b)
}

/// The larger of two numbers. Where one holds no number the other is the
/// result; of two zeros the first.
pub open spec fn maximum(a: u32, b: u32) -> u32 {
    if is_nan(a) {
        b
    } else if less_than(a, b) {
        b
    } else {
        a
    }
}

/// The smaller of two numbers. Where one holds no number the other is the
/// result; of two zeros the first.
pub open spec fn minimum(a: u32, b: u32) -> u32 {
    if is_nan(a) {
        b
    } else if less_than(b, a) {
        b
    } else {
        a
    }
}

/// `extent` times the finite number `significand * 2^exponent` under the
/// sign `negative`: the extent rounded to single precision, the product
/// rounded to single precision, its fraction dropped, and the whole
/// saturated to 32 bits.
pub open spec fn truncated_product(
    extent: int,
    negative: bool,
    significand: nat,
    exponent: int,
) -> int {
    let wide = round_significant(magnitude_of(extent), PRECISION as nat);
    let product = round_significant(wide * significand, PRECISION as nat);
    signed_saturated(negative != (extent < 0), limited_floor(product, exponent))
}

/// `extent` times the number in `factor`, in single precision, as a 32-bit
/// signed number. No number gives 0, an infinity the bound of its sign.
pub open spec fn scaled_extent(extent: int, factor: u32) -> int {
    if is_nan(factor) {
        0
    } else if is_infinite(factor) {
        if extent == 0 {
            0
        } else if is_negative(factor) != (extent < 0) {
            -0x8000_0000
        } else {
            0x7fff_ffff
        }
    } else {
        truncated_product(extent, is_negative(factor), significand(factor), exponent(factor))
    }
}

/// Comparing by the bits is comparing by the values: of two finite numbers
/// the first is less than the second exactly where its value is the lesser.
/// An infinity lies beyond every finite number of its sign.
pub proof fn lemma_less_than_orders_values(a: u32, b: u32)
    requires
        is_finite(a),
        is_finite(b),
    ensures
        less_than(a, b) <==> value_of(a) < value_of(b),
        !less_than(a, b) && !less_than(b, a) <==> value_of(a) == value_of(b),
        less_than(a, INFINITY),
        less_than((INFINITY + 0x8000_0000) as u32, a),
{
    lemma2_to64();
    let ma = magnitude_bits(a);
    let mb = magnitude_bits(b);
    assert(significand(a) * pow2((exponent(a) + 149) as nat) == packed_value(ma, 23));
    assert(significand(b) * pow2((exponent(b) + 149) as nat) == packed_value(mb, 23));
    lemma_packed_order(ma, mb, 23);
    lemma_packed_order(ma, 0, 23);
    lemma_packed_order(mb, 0, 23);
    crate::packed::lemma_packed_value_bounds(0, 23);
}

/// The constants hold the numbers that they are named after: one half is
/// `2^23 * 2^-24`, one is `2^23 * 2^-23`.
pub proof fn lemma_constants()
    ensures
        is_finite(HALF) && !is_negative(HALF) && significand(HALF) == 0x80_0000 && exponent(HALF)
            == -24,
        is_finite(ONE) && !is_negative(ONE) && significand(ONE) == 0x80_0000 && exponent(ONE)
            == -23,
        is_zero(0) && value_of(0) == 0,
{
    assert(0 * pow2(0) == 0) by (nonlinear_arith);
}

/// Multiplying by zero, of either sign, gives 0 whatever the extent.
pub proof fn lemma_zero_scales_to_zero(extent: int, factor: u32)
    requires
        is_zero(factor),
    ensures
        scaled_extent(extent, factor) == 0,
{
    let wide = round_significant(magnitude_of(extent), PRECISION as nat);
    assert(wide * 0 == 0) by (nonlinear_arith);
    lemma_round_exact(0, PRECISION as nat);
    lemma_pow2_pos(149);
    lemma_basic_div(0, pow2(149) as int);
}

/// An extent that is not negative, times a factor that is not negative,
/// gives a pixel that is not negative.
pub proof fn lemma_scaled_extent_is_not_negative(extent: int, factor: u32)
    requires
        extent >= 0,
        is_nan(factor) || order_key(factor) >= 0,
    ensures
        scaled_extent(extent, factor) >= 0,
{
    if is_zero(factor) {
        lemma_zero_scales_to_zero(extent, factor);
    }
}

/// An extent of up to `2^24`, times a factor of no more than one, gives a
/// pixel within the extent.
pub proof fn lemma_scaled_extent_stays_within(extent: int, factor: u32)
    requires
        0 <= extent <= 0x100_0000,
        !is_nan(factor),
        order_key(factor) <= ONE,
    ensures
        scaled_extent(extent, factor) <= extent,
{
    lemma2_to64();
    if is_zero(factor) {
        lemma_zero_scales_to_zero(extent, factor);
    } else if !is_negative(factor) {
        let size = extent as nat;
        let wide = round_significant(size, PRECISION as nat);
        assert(wide == size) by {
            if size < 0x100_0000 {
                lemma_bit_length_below(size, 24);
                lemma_round_exact(size, PRECISION as nat);
            } else {
                assert(size == 0x100_0000);
                lemma_bit_length_unique(size, 25);
                assert(spacing(size, PRECISION as nat) == 2);
                assert(nearest_count(size, 2) == 0x80_0000);
                assert(wide == nearest_count(size, 2) * 2);
            }
        }
        let sig = significand(factor);
        let k = (-exponent(factor)) as nat;
        let whole = pow2(k);
        lemma_pow2_pos(k);
        assert(23 <= k <= 149);
        assert(sig <= whole) by {
            if k > 24 {
                lemma_pow2_strictly_increases(24, k);
            }
        }
        let product = wide * sig;
        let bound = wide * whole;
        assert(product <= bound) by (nonlinear_arith)
            requires
                product == wide * sig,
                bound == wide * whole,
                sig <= whole,
        ;
        assert(bound % spacing(product, PRECISION as nat) == 0) by {
            if bit_length(product) > 24 {
                let a = (bit_length(product) - 24) as nat;
                lemma_bit_length_grows(product, bound);
                if size < 0x100_0000 {
                    lemma_pow2_adds(24, k);
                    assert(bound < pow2(24 + k)) by (nonlinear_arith)
                        requires
                            bound == wide * whole,
                            wide < 0x100_0000,
                            pow2(24 + k) == 0x100_0000 * whole,
                            whole > 0,
                    ;
                    lemma_bit_length_below(bound, 24 + k);
                    lemma_multiple_of_lesser_power(wide, k, a);
                } else {
                    lemma_pow2_adds(24, k);
                    assert(bound == pow2(24 + k));
                    lemma_pow2_strictly_increases(24 + k, 25 + k);
                    lemma_bit_length_below(bound, 25 + k);
                    lemma_multiple_of_lesser_power(1, 24 + k, a);
                    assert(1 * pow2(24 + k) == bound);
                }
            }
        }
        lemma_round_stays_below(product, bound, PRECISION as nat);
        let rounded = round_significant(product, PRECISION as nat);
        assert(scaled_floor(rounded, exponent(factor)) <= wide) by {
            lemma_div_is_ordered(rounded as int, bound as int, whole as int);
            lemma_div_multiples_vanish(wide as int, whole as int);
            assert(wide * whole == whole * wide) by (nonlinear_arith);
        }
    }
}

/// Decides `a < b`.
pub fn lt(a: u32, b: u32) -> (r: bool)
    ensures
        r == less_than(a, b),
{
    let ma: u32 = a % 0x8000_0000;
    let mb: u32 = b % 0x8000_0000;
    if ma > INFINITY || mb > INFINITY {
        return false;
    }
    let a_negative: bool = a >= 0x8000_0000;
    let b_negative: bool = b >= 0x8000_0000;
    if a_negative {
        if b_negative {
            ma > mb
        } else {
            ma > 0 || mb > 0
        }
    } else {
        if b_negative {
            false
        } else {
            ma < mb
        }
    }
}

/// Computes `maximum`.
pub fn max(a: u32, b: u32) -> (r: u32)
    ensures
        r == maximum(a, b),
{
    if a % 0x8000_0000 > INFINITY || lt(a, b) {
        b
    } else {
        a
    }
}

/// Computes `minimum`.
pub fn min(a: u32, b: u32) -> (r: u32)
    ensures
        r == minimum(a, b),
{
    if a % 0x8000_0000 > INFINITY || lt(b, a) {
        b
    } else {
        a
    }
}

/// Computes `truncated_product`.
pub fn multiply_truncated(extent: i32, negative: bool, significand: u32, exponent: i32) -> (r:
    i32)
    ensures
        r == truncated_product(extent as int, negative, significand as nat, exponent as int),
{
    let size: u128 = magnitude(extent);
    let wide: u128 = round_to_precision(size, PRECISION);
    proof {
        lemma2_to64();
        lemma_round_bounds(size as nat, PRECISION as nat);
        lemma_bit_length_below(size as nat, 32);
        if bit_length(size as nat) < 32 {
            lemma_pow2_strictly_increases(bit_length(size as nat), 32);
        }
        assert(wide * significand <= 0x1_0000_0000 * 0x1_0000_0000) by (nonlinear_arith)
            requires
                wide <= 0x1_0000_0000,
                significand <= 0x1_0000_0000,
        ;
    }
    let product: u128 = round_to_precision(wide * (significand as u128), PRECISION);
    saturate(negative != (extent < 0), floor_limited(product, exponent))
}

/// Computes `scaled_extent`: what multiplying `extent`, converted to single
/// precision, by `factor` and converting the product to a 32-bit signed
/// number gives.
pub fn scale_extent(extent: i32, factor: u32) -> (r: i32)
    ensures
        r == scaled_extent(extent as int, factor),
{
    let m: u32 = factor % 0x8000_0000;
    let negative: bool = factor >= 0x8000_0000;
    if m > INFINITY {
        0
    } else if m == INFINITY {
        if extent == 0 {
            0
        } else if negative != (extent < 0) {
            i32::MIN
        } else {
            i32::MAX
        }
    } else if m < 0x80_0000 {
        multiply_truncated(extent, negative, m, -149)
    } else {
        let field: u32 = m / 0x80_0000;
        multiply_truncated(extent, negative, 0x80_0000 + m % 0x80_0000, field as i32 - 150)
    }
}

} // verus!
