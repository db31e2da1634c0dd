//! The order of binary floating-point magnitudes in their packed form.
//!
//! A magnitude is packed as an exponent field above a fraction of a fixed
//! number of bits. Read as one whole number, the packed form grows exactly
//! as the magnitude does. That is why two numbers can be compared by their
//! bits.

use vstd::arithmetic::div_mod::{lemma_div_is_ordered, lemma_fundamental_div_mod};
use vstd::arithmetic::power2::{lemma2_to64, lemma_pow2_pos, lemma_pow2_strictly_increases, lemma_pow2_unfold, pow2};
use vstd::prelude::*;

verus! {

/// The significand that a packed magnitude holds: the fraction alone where
/// the exponent field is zero, else the fraction under a leading one.
pub open spec fn packed_significand(m: nat, fraction_bits: nat) -> nat {
    if m < pow2(fraction_bits) {
        m
    } else {
        pow2(fraction_bits) + m % pow2(fraction_bits)
    }
}

/// The power of two that the significand of a packed magnitude is counted
/// in, above the least one: zero for the exponent fields 0 and 1, then one
/// more with each field.
pub open spec fn packed_scale(m: nat, fraction_bits: nat) -> nat {
    if m < pow2(fraction_bits) {
        0
    } else {
        (m / pow2(fraction_bits) - 1) as nat
    }
}

/// The magnitude that is packed in `m`, in units of the least magnitude.
pub open spec fn packed_value(m: nat, fraction_bits: nat) -> nat {
    packed_significand(m, fraction_bits) * pow2(packed_scale(m, fraction_bits))
}

/// The magnitude of a packed number lies in the binade that its exponent
/// field names.
pub proof fn lemma_packed_value_bounds(m: nat, fraction_bits: nat)
    ensures
        m < pow2(fraction_bits) ==> packed_value(m, fraction_bits) == m,
        m >= pow2(fraction_bits) ==> m / pow2(fraction_bits) >= 1 && pow2(fraction_bits) * pow2(
            packed_scale(m, fraction_bits),
        ) <= packed_value(m, fraction_bits) < pow2(fraction_bits) * pow2(
            packed_scale(m, fraction_bits) + 1,
        ),
{
    let unit = pow2(fraction_bits);
    lemma2_to64();
    lemma_pow2_pos(fraction_bits);
    if m < unit {
        assert(m * 1 == m) by (nonlinear_arith);
    } else {
        let field = m / unit;
        let fraction = m % unit;
        let scale = packed_scale(m, fraction_bits);
        let power = pow2(scale);
        lemma_fundamental_div_mod(m as int, unit as int);
        assert(field >= 1) by (nonlinear_arith)
            requires
                m == unit * field + fraction,
                fraction < unit,
                m >= unit,
                field >= 0,
        ;
        lemma_pow2_pos(scale);
        lemma_pow2_unfold(scale + 1);
        assert(unit * power <= (unit + fraction) * power < unit * (2 * power))
            by (nonlinear_arith)
            requires
                0 <= fraction < unit,
                power > 0,
        ;
    }
}

/// Of two packed magnitudes the one with the lesser packed form is the
/// lesser.
pub proof fn lemma_packed_order_is_strict(a: nat, b: nat, fraction_bits: nat)
    requires
        a < b,
    ensures
        packed_value(a, fraction_bits) < packed_value(b, fraction_bits),
{
    let unit = pow2(fraction_bits);
    lemma_pow2_pos(fraction_bits);
    lemma_packed_value_bounds(a, fraction_bits);
    lemma_packed_value_bounds(b, fraction_bits);
    if b < unit {
    } else if a < unit {
        let power = pow2(packed_scale(b, fraction_bits));
        lemma_pow2_pos(packed_scale(b, fraction_bits));
        assert(unit * 1 <= unit * power) by (nonlinear_arith)
            requires
                power >= 1,
                unit > 0,
        ;
    } else {
        let fa = a / unit;
        let fb = b / unit;
        lemma_fundamental_div_mod(a as int, unit as int);
        lemma_fundamental_div_mod(b as int, unit as int);
        lemma_div_is_ordered(a as int, b as int, unit as int);
        if fa == fb {
            let power = pow2(packed_scale(a, fraction_bits));
            lemma_pow2_pos(packed_scale(a, fraction_bits));
            let ra = a % unit;
            let rb = b % unit;
            assert(ra < rb);
            assert((unit + ra) * power < (unit + rb) * power) by (nonlinear_arith)
                requires
                    ra < rb,
                    power > 0,
            ;
        } else {
            let sa = packed_scale(a, fraction_bits);
            let sb = packed_scale(b, fraction_bits);
            assert(sa + 1 <= sb);
            if sa + 1 < sb {
                lemma_pow2_strictly_increases(sa + 1, sb);
            }
            assert(unit * pow2(sa + 1) <= unit * pow2(sb)) by (nonlinear_arith)
                requires
                    pow2(sa + 1) <= pow2(sb),
                    unit > 0,
            ;
        }
    }
}

/// Packed magnitudes are ordered as the magnitudes are, and equal where
/// they are.
pub proof fn lemma_packed_order(a: nat, b: nat, fraction_bits: nat)
    ensures
        a < b <==> packed_value(a, fraction_bits) < packed_value(b, fraction_bits),
        a == b <==> packed_value(a, fraction_bits) == packed_value(b, fraction_bits),
{
    if a < b {
        lemma_packed_order_is_strict(a, b, fraction_bits);
    } else if b < a {
        lemma_packed_order_is_strict(b, a, fraction_bits);
    }
}

} // verus!
