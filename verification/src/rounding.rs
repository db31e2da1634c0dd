//! Rounding of natural numbers to a number of significant binary digits.
//!
//! A binary floating-point value is a natural number of bounded width times
//! a power of two. Every rounding that single and double precision
//! arithmetic performs in this crate is stated over natural numbers here:
//! which multiple of a spacing is nearest, with a tie going to the even
//! multiple.

use vstd::arithmetic::div_mod::{
    lemma_basic_div, lemma_fundamental_div_mod, lemma_mod_multiples_basic,
};
use vstd::arithmetic::power2::{
    lemma2_to64, lemma2_to64_rest, lemma_pow2_adds, lemma_pow2_pos,
    lemma_pow2_strictly_increases, lemma_pow2_unfold, pow2,
};
use vstd::prelude::*;

verus! {

/// The bound at which a scaled magnitude stops being told apart: `2^31`,
/// one past the largest 32-bit signed number.
pub const MAGNITUDE_LIMIT: u64 = 0x8000_0000;

/// The number of binary digits of `n`: zero for zero, else one more than
/// the position of the highest set bit.
pub open spec fn bit_length(n: nat) -> nat
    decreases n,
{
    if n == 0 {
        0
    } else {
        1 + bit_length(n / 2)
    }
}

/// How many times `unit` goes into the multiple of `unit` nearest to `n`.
/// Where `n` lies halfway between two multiples, the even count wins.
pub open spec fn nearest_count(n: nat, unit: nat) -> nat {
    let q = n / unit;
    let r = n % unit;
    if 2 * r < unit || (2 * r == unit && q % 2 == 0) {
        q
    } else {
        q + 1
    }
}

/// The distance between neighbouring values that keep `precision`
/// significant binary digits, at the size of `n`.
pub open spec fn spacing(n: nat, precision: nat) -> nat {
    if bit_length(n) <= precision {
        1
    } else {
        pow2((bit_length(n) - precision) as nat)
    }
}

/// `n` rounded to `precision` significant binary digits: to nearest, ties
/// to even.
pub open spec fn round_significant(n: nat, precision: nat) -> nat {
    nearest_count(n, spacing(n, precision)) * spacing(n, precision)
}

/// The integer part of `n * 2^exponent`.
pub open spec fn scaled_floor(n: nat, exponent: int) -> nat {
    if exponent >= 0 {
        n * pow2(exponent as nat)
    } else {
        n / pow2((-exponent) as nat)
    }
}

/// The integer part of `n * 2^exponent`, or `MAGNITUDE_LIMIT` where that is
/// less.
pub open spec fn limited_floor(n: nat, exponent: int) -> nat {
    if scaled_floor(n, exponent) >= MAGNITUDE_LIMIT {
        MAGNITUDE_LIMIT as nat
    } else {
        scaled_floor(n, exponent)
    }
}

/// The least `k` for which `num * 2^k / den` has `precision` binary digits
/// before the point, for a `num` that is narrower than that.
pub open spec fn normalizing_shift(num: nat, den: nat, precision: nat) -> nat {
    let wide = (bit_length(den) + precision - bit_length(num)) as nat;
    if num * pow2((wide - 1) as nat) >= den * pow2((precision - 1) as nat) {
        (wide - 1) as nat
    } else {
        wide
    }
}

/// `num / den` rounded to `precision` significant binary digits, as a whole
/// number of units `2^-normalizing_shift(num, den, precision)`.
pub open spec fn rounded_quotient(num: nat, den: nat, precision: nat) -> nat {
    nearest_count(num * pow2(normalizing_shift(num, den, precision)), den)
}

/// The magnitude of a whole number.
pub open spec fn magnitude_of(n: int) -> nat {
    if n < 0 {
        (-n) as nat
    } else {
        n as nat
    }
}

/// A magnitude under a sign, as a 32-bit signed number: the nearest one
/// where the magnitude is out of range.
pub open spec fn signed_saturated(negative: bool, magnitude: nat) -> int {
    if negative {
        if magnitude >= 0x8000_0000 {
            -0x8000_0000
        } else {
            -(magnitude as int)
        }
    } else {
        if magnitude >= 0x7fff_ffff {
            0x7fff_ffff
        } else {
            magnitude as int
        }
    }
}

/// A positive number lies between the two powers of two that its bit
/// length names.
pub proof fn lemma_bit_length_bounds(n: nat)
    ensures
        n < pow2(bit_length(n)),
        n > 0 ==> pow2((bit_length(n) - 1) as nat) <= n,
    decreases n,
{
    lemma2_to64();
    if n > 0 {
        lemma_bit_length_bounds(n / 2);
        lemma_pow2_unfold(bit_length(n));
        if n / 2 > 0 {
            lemma_pow2_unfold((bit_length(n) - 1) as nat);
        }
    }
}

/// The bit length is the only `k` with `2^(k-1) <= n < 2^k`.
pub proof fn lemma_bit_length_unique(n: nat, k: nat)
    requires
        k >= 1,
        pow2((k - 1) as nat) <= n < pow2(k),
    ensures
        bit_length(n) == k,
{
    lemma_bit_length_bounds(n);
    lemma_pow2_pos((k - 1) as nat);
    let len = bit_length(n);
    if len < k {
        if len < k - 1 {
            lemma_pow2_strictly_increases(len, (k - 1) as nat);
        }
    } else if len > k {
        if len - 1 > k {
            lemma_pow2_strictly_increases(k, (len - 1) as nat);
        }
    }
}

/// A number below `2^k` has at most `k` binary digits.
pub proof fn lemma_bit_length_below(n: nat, k: nat)
    requires
        n < pow2(k),
    ensures
        bit_length(n) <= k,
{
    lemma_bit_length_bounds(n);
    if bit_length(n) > k {
        if bit_length(n) - 1 > k {
            lemma_pow2_strictly_increases(k, (bit_length(n) - 1) as nat);
        }
    }
}

/// A greater number has no fewer binary digits.
pub proof fn lemma_bit_length_grows(a: nat, b: nat)
    requires
        a <= b,
    ensures
        bit_length(a) <= bit_length(b),
{
    lemma_bit_length_bounds(a);
    lemma_bit_length_bounds(b);
    if bit_length(a) > bit_length(b) {
        if bit_length(b) < bit_length(a) - 1 {
            lemma_pow2_strictly_increases(bit_length(b), (bit_length(a) - 1) as nat);
        }
    }
}

/// The multiple that `nearest_count` picks is no further from `n` than half
/// a unit, and where it is exactly half a unit away the count is even.
pub proof fn lemma_nearest_count_is_nearest(n: nat, unit: nat)
    requires
        unit > 0,
    ensures
        2 * (nearest_count(n, unit) * unit - n) <= unit,
        2 * (n - nearest_count(n, unit) * unit) <= unit,
        2 * (nearest_count(n, unit) * unit - n) == unit || 2 * (n - nearest_count(n, unit) * unit)
            == unit ==> nearest_count(n, unit) % 2 == 0,
{
    let q = n / unit;
    let r = n % unit;
    lemma_fundamental_div_mod(n as int, unit as int);
    assert((q + 1) * unit == q * unit + unit) by (nonlinear_arith);
    assert(unit * q == q * unit) by (nonlinear_arith);
}

/// No multiple of `unit` is nearer to `n` than the one `nearest_count`
/// picks.
pub proof fn lemma_no_multiple_is_nearer(n: nat, unit: nat, other: nat)
    requires
        unit > 0,
    ensures
        ({
            let picked = nearest_count(n, unit) * unit;
            let rival = other * unit;
            let d_picked = if picked >= n { picked - n } else { n - picked };
            let d_rival = if rival >= n { rival - n } else { n - rival };
            d_picked <= d_rival
        }),
{
    let q = n / unit;
    let r = n % unit;
    let c = nearest_count(n, unit);
    lemma_fundamental_div_mod(n as int, unit as int);
    assert(unit * q == q * unit) by (nonlinear_arith);
    assert((q + 1) * unit == q * unit + unit) by (nonlinear_arith);
    if other <= q {
        assert(other * unit <= q * unit) by (nonlinear_arith)
            requires
                other <= q,
                unit > 0,
        ;
    } else {
        assert(other * unit >= (q + 1) * unit) by (nonlinear_arith)
            requires
                other >= q + 1,
                unit > 0,
        ;
    }
}

/// A number that already fits into `precision` digits is its own rounding.
pub proof fn lemma_round_exact(n: nat, precision: nat)
    requires
        bit_length(n) <= precision,
    ensures
        round_significant(n, precision) == n,
{
    assert(n / 1 == n);
    assert(n % 1 == 0);
}

/// Rounding moves a number by at most half a spacing, never past the next
/// power of two.
pub proof fn lemma_round_bounds(n: nat, precision: nat)
    requires
        precision >= 1,
    ensures
        round_significant(n, precision) <= pow2(bit_length(n)),
        n > 0 ==> round_significant(n, precision) >= pow2((bit_length(n) - 1) as nat),
{
    let len = bit_length(n);
    lemma_bit_length_bounds(n);
    if len <= precision {
        lemma_round_exact(n, precision);
    } else {
        let s = (len - precision) as nat;
        let unit = pow2(s);
        lemma_pow2_pos(s);
        let q = n / unit;
        let r = n % unit;
        lemma_fundamental_div_mod(n as int, unit as int);
        assert(unit * q == q * unit) by (nonlinear_arith);
        // The bounds of n are themselves multiples of the unit.
        lemma_pow2_adds(s, precision);
        lemma_pow2_adds(s, (precision - 1) as nat);
        let hi = pow2(precision);
        let lo = pow2((precision - 1) as nat);
        assert(pow2(len) == unit * hi);
        assert(pow2((len - 1) as nat) == unit * lo);
        assert(q < hi) by (nonlinear_arith)
            requires
                unit * q + r < unit * hi,
                r >= 0,
                unit > 0,
        ;
        assert(q >= lo) by (nonlinear_arith)
            requires
                unit * q + r >= unit * lo,
                r < unit,
                unit > 0,
        ;
        let c = nearest_count(n, unit);
        assert(lo <= c <= hi);
        assert(c * unit <= hi * unit) by (nonlinear_arith)
            requires
                c <= hi,
                unit > 0,
        ;
        assert(c * unit >= lo * unit) by (nonlinear_arith)
            requires
                c >= lo,
                unit > 0,
        ;
        assert(hi * unit == unit * hi) by (nonlinear_arith);
        assert(lo * unit == unit * lo) by (nonlinear_arith);
    }
}

/// A multiple of a power of two is a multiple of every lesser power of two.
pub proof fn lemma_multiple_of_lesser_power(n: nat, greater: nat, lesser: nat)
    requires
        lesser <= greater,
    ensures
        (n * pow2(greater)) % pow2(lesser) == 0,
{
    lemma_pow2_adds((greater - lesser) as nat, lesser);
    lemma_pow2_pos(lesser);
    let rest = pow2((greater - lesser) as nat);
    let unit = pow2(lesser);
    assert(n * (rest * unit) == (n * rest) * unit) by (nonlinear_arith);
    lemma_mod_multiples_basic((n * rest) as int, unit as int);
}

/// Rounding does not step over a number that needs no rounding: where `n`
/// is no more than a multiple of its spacing, so is `n` rounded.
pub proof fn lemma_round_stays_below(n: nat, bound: nat, precision: nat)
    requires
        n <= bound,
        bound % spacing(n, precision) == 0,
    ensures
        round_significant(n, precision) <= bound,
{
    let unit = spacing(n, precision);
    if bit_length(n) > precision {
        lemma_pow2_pos((bit_length(n) - precision) as nat);
    }
    let q = n / unit;
    let r = n % unit;
    let j = bound / unit;
    let c = nearest_count(n, unit);
    lemma_fundamental_div_mod(n as int, unit as int);
    lemma_fundamental_div_mod(bound as int, unit as int);
    assert(c <= j) by (nonlinear_arith)
        requires
            n == unit * q + r,
            bound == unit * j,
            n <= bound,
            0 <= r < unit,
            c == q || (c == q + 1 && r > 0),
    ;
    assert(c * unit <= unit * j) by (nonlinear_arith)
        requires
            c <= j,
            unit > 0,
    ;
}

/// The shift that `normalizing_shift` names is the least one that brings the
/// quotient up to `precision` digits.
pub proof fn lemma_normalizing_shift(num: nat, den: nat, precision: nat)
    requires
        num > 0,
        den > 0,
        precision >= 1,
        bit_length(num) < bit_length(den) + precision,
    ensures
        num * pow2(normalizing_shift(num, den, precision)) >= den * pow2((precision - 1) as nat),
        num * pow2(normalizing_shift(num, den, precision)) < 2 * (den * pow2(
            (precision - 1) as nat,
        )),
        normalizing_shift(num, den, precision) <= bit_length(den) + precision - bit_length(num),
        normalizing_shift(num, den, precision) + 1 >= bit_length(den) + precision - bit_length(
            num,
        ),
{
    let a = bit_length(num);
    let b = bit_length(den);
    let wide = (b + precision - a) as nat;
    let half = pow2((precision - 1) as nat);
    lemma_bit_length_bounds(num);
    lemma_bit_length_bounds(den);
    lemma_pow2_pos((precision - 1) as nat);
    // num * 2^(wide - 1) < 2^a * 2^(wide - 1) = 2^(b - 1) * 2^(precision - 1) * 2 <= 2 * den * half
    lemma_pow2_adds(a, (wide - 1) as nat);
    lemma_pow2_adds((b - 1) as nat, precision);
    lemma_pow2_unfold(precision);
    lemma_pow2_pos((wide - 1) as nat);
    let low = pow2((wide - 1) as nat);
    assert(num * low < pow2(a) * low) by (nonlinear_arith)
        requires
            num < pow2(a),
            low > 0,
    ;
    assert(pow2((b - 1) as nat) * (2 * half) <= den * (2 * half)) by (nonlinear_arith)
        requires
            pow2((b - 1) as nat) <= den,
            half > 0,
    ;
    assert(den * (2 * half) == 2 * (den * half)) by (nonlinear_arith);
    assert(num * low < 2 * (den * half));
    // num * 2^wide >= 2^(a - 1) * 2^wide = 2^b * 2^(precision - 1) > den * half
    lemma_pow2_adds((a - 1) as nat, wide);
    lemma_pow2_adds(b, (precision - 1) as nat);
    lemma_pow2_unfold(wide);
    let high = pow2(wide);
    assert(pow2((a - 1) as nat) * high <= num * high) by (nonlinear_arith)
        requires
            pow2((a - 1) as nat) <= num,
            high > 0,
    ;
    assert(den * half < pow2(b) * half) by (nonlinear_arith)
        requires
            den < pow2(b),
            half > 0,
    ;
    assert(num * high == 2 * (num * low)) by (nonlinear_arith)
        requires
            high == 2 * low,
    ;
}

/// The rounded quotient has `precision` digits, or is the power of two just
/// above them.
pub proof fn lemma_rounded_quotient_bounds(num: nat, den: nat, precision: nat)
    requires
        num > 0,
        den > 0,
        precision >= 1,
        bit_length(num) < bit_length(den) + precision,
    ensures
        pow2((precision - 1) as nat) <= rounded_quotient(num, den, precision) <= pow2(precision),
{
    let k = normalizing_shift(num, den, precision);
    let n = num * pow2(k);
    let half = pow2((precision - 1) as nat);
    lemma_normalizing_shift(num, den, precision);
    lemma_pow2_unfold(precision);
    lemma_fundamental_div_mod(n as int, den as int);
    let q = n / den;
    let r = n % den;
    assert(q >= half) by (nonlinear_arith)
        requires
            den * q + r >= den * half,
            r < den,
            den > 0,
    ;
    assert(q < 2 * half) by (nonlinear_arith)
        requires
            den * q + r < 2 * (den * half),
            r >= 0,
            den > 0,
    ;
}

/// `2^127` and `2^128` written out.
pub proof fn lemma_pow2_wide()
    ensures
        pow2(127) == 0x8000_0000_0000_0000_0000_0000_0000_0000,
        pow2(128) == 0x1_0000_0000_0000_0000_0000_0000_0000_0000,
{
    lemma2_to64();
    lemma2_to64_rest();
    lemma_pow2_adds(63, 64);
    lemma_pow2_adds(64, 64);
    assert(0x8000_0000_0000_0000 * 0x1_0000_0000_0000_0000
        == 0x8000_0000_0000_0000_0000_0000_0000_0000int) by (nonlinear_arith);
    assert(0x1_0000_0000_0000_0000 * 0x1_0000_0000_0000_0000
        == 0x1_0000_0000_0000_0000_0000_0000_0000_0000int) by (nonlinear_arith);
}

/// `2^k` as a machine number.
pub(crate) fn power_of_two(k: u32) -> (r: u128)
    requires
        k < 128,
    ensures
        r == pow2(k as nat),
{
    let mut r: u128 = 1;
    let mut i: u32 = 0;
    proof {
        lemma2_to64();
    }
    while i < k
        invariant
            i <= k,
            k < 128,
            r == pow2(i as nat),
        decreases k - i,
    {
        proof {
            lemma_pow2_unfold((i + 1) as nat);
            lemma_pow2_wide();
            if i + 1 < 127 {
                lemma_pow2_strictly_increases((i + 1) as nat, 127);
            }
        }
        r = r * 2;
        i = i + 1;
    }
    r
}

/// The number of binary digits of `n`.
pub fn bit_width(n: u128) -> (r: u32)
    ensures
        r == bit_length(n as nat),
        r <= 128,
{
    let mut m: u128 = n;
    let mut k: u32 = 0;
    proof {
        lemma_pow2_wide();
        lemma_bit_length_below(n as nat, 128);
    }
    while m > 0
        invariant
            k + bit_length(m as nat) == bit_length(n as nat),
            bit_length(n as nat) <= 128,
        decreases m,
    {
        m = m / 2;
        k = k + 1;
    }
    k
}

/// The count of the multiple of `unit` nearest to `n`, ties to even.
pub(crate) fn nearest_multiple(n: u128, unit: u128) -> (c: u128)
    requires
        unit > 0,
    ensures
        c == nearest_count(n as nat, unit as nat),
        c * unit <= n + unit,
{
    let q: u128 = n / unit;
    let r: u128 = n % unit;
    proof {
        lemma_fundamental_div_mod(n as int, unit as int);
        assert(unit * q == q * unit) by (nonlinear_arith);
        assert((q + 1) * unit == q * unit + unit) by (nonlinear_arith);
    }
    let rest: u128 = unit - r;
    if r < rest || (r == rest && q % 2 == 0) {
        q
    } else {
        assert(q < u128::MAX) by (nonlinear_arith)
            requires
                q * unit <= n,
                unit >= 2,
                n <= u128::MAX,
        ;
        q + 1
    }
}

/// `n` rounded to `precision` significant binary digits.
pub(crate) fn round_to_precision(n: u128, precision: u32) -> (r: u128)
    requires
        precision >= 1,
        n < 0x8000_0000_0000_0000_0000_0000_0000_0000,
    ensures
        r == round_significant(n as nat, precision as nat),
        r <= 0x8000_0000_0000_0000_0000_0000_0000_0000,
{
    let len: u32 = bit_width(n);
    proof {
        lemma_pow2_wide();
        lemma_bit_length_below(n as nat, 127);
        lemma_round_bounds(n as nat, precision as nat);
        if len < 127 {
            lemma_pow2_strictly_increases(len as nat, 127);
        }
    }
    if len <= precision {
        proof {
            lemma_round_exact(n as nat, precision as nat);
        }
        n
    } else {
        let unit: u128 = power_of_two(len - precision);
        proof {
            if len - precision < 127 {
                lemma_pow2_strictly_increases((len - precision) as nat, 127);
            }
            lemma_pow2_pos((len - precision) as nat);
        }
        let c: u128 = nearest_multiple(n, unit);
        c * unit
    }
}

/// Computes `limited_floor`.
pub fn floor_limited(n: u128, exponent: i32) -> (r: u64)
    ensures
        r == limited_floor(n as nat, exponent as int),
        r <= MAGNITUDE_LIMIT,
{
    if n == 0 {
        proof {
            if exponent >= 0 {
                assert(0 * pow2(exponent as nat) == 0) by (nonlinear_arith);
            } else {
                lemma_pow2_pos((-exponent) as nat);
                lemma_basic_div(0, pow2((-exponent) as nat) as int);
            }
        }
        return 0;
    }
    if exponent >= 0 {
        proof {
            lemma2_to64();
            lemma_pow2_pos(exponent as nat);
            let p = pow2(exponent as nat);
            assert(n * p >= n && n * p >= p) by (nonlinear_arith)
                requires
                    n >= 1,
                    p >= 1,
            ;
            if exponent > 31 {
                lemma_pow2_strictly_increases(31, exponent as nat);
            }
        }
        if exponent >= 31 || n >= 0x8000_0000 {
            return MAGNITUDE_LIMIT;
        }
        let p: u128 = power_of_two(exponent as u32);
        proof {
            lemma_pow2_strictly_increases(exponent as nat, 31);
            assert(n * p < 0x8000_0000 * 0x8000_0000) by (nonlinear_arith)
                requires
                    n < 0x8000_0000,
                    p < 0x8000_0000,
            ;
        }
        let v: u128 = n * p;
        if v >= 0x8000_0000 {
            MAGNITUDE_LIMIT
        } else {
            v as u64
        }
    } else {
        let k: i64 = -(exponent as i64);
        if k >= 128 {
            proof {
                lemma_pow2_wide();
                if k > 128 {
                    lemma_pow2_strictly_increases(128, k as nat);
                }
                lemma_basic_div(n as int, pow2(k as nat) as int);
            }
            return 0;
        }
        let p: u128 = power_of_two(k as u32);
        proof {
            lemma_pow2_pos(k as nat);
        }
        let v: u128 = n / p;
        if v >= 0x8000_0000 {
            MAGNITUDE_LIMIT
        } else {
            v as u64
        }
    }
}

/// The least shift that brings `num / den` up to `precision` digits.
pub(crate) fn shift_to_normalize(num: u128, den: u128, precision: u32) -> (k: u32)
    requires
        num > 0,
        den > 0,
        precision >= 1,
        bit_length(num as nat) < bit_length(den as nat) + precision,
        bit_length(den as nat) + precision <= 127,
    ensures
        k == normalizing_shift(num as nat, den as nat, precision as nat),
        num * pow2(k as nat) < 0x8000_0000_0000_0000_0000_0000_0000_0000,
{
    let a: u32 = bit_width(num);
    let b: u32 = bit_width(den);
    let wide: u32 = b + precision - a;
    proof {
        lemma_pow2_wide();
        lemma_normalizing_shift(num as nat, den as nat, precision as nat);
        lemma_bit_length_bounds(num as nat);
        lemma_bit_length_bounds(den as nat);
        // Both sides of the comparison stay below 2^127.
        lemma_pow2_adds(a as nat, wide as nat);
        lemma_pow2_adds(b as nat, (precision - 1) as nat);
        lemma_pow2_pos(wide as nat);
        lemma_pow2_pos((wide - 1) as nat);
        lemma_pow2_pos((precision - 1) as nat);
        lemma_pow2_unfold(wide as nat);
        if b + precision < 127 {
            lemma_pow2_strictly_increases((b + precision) as nat, 127);
        }
        lemma_pow2_strictly_increases((b + precision - 1) as nat, (b + precision) as nat);
        let high = pow2(wide as nat);
        let half = pow2((precision - 1) as nat);
        assert(num * high < pow2(a as nat) * high) by (nonlinear_arith)
            requires
                num < pow2(a as nat),
                high > 0,
        ;
        assert(den * half < pow2(b as nat) * half) by (nonlinear_arith)
            requires
                den < pow2(b as nat),
                half > 0,
        ;
        let low = pow2((wide - 1) as nat);
        assert(num * low <= num * high) by (nonlinear_arith)
            requires
                low <= high,
                num > 0,
        ;
    }
    let low: u128 = power_of_two(wide - 1);
    let half: u128 = power_of_two(precision - 1);
    if num * low >= den * half {
        wide - 1
    } else {
        wide
    }
}

/// Computes `rounded_quotient` and the shift that it is counted in.
pub(crate) fn divide_rounded(num: u128, den: u128, precision: u32) -> (r: (u128, u32))
    requires
        num > 0,
        den > 0,
        precision >= 1,
        bit_length(num as nat) < bit_length(den as nat) + precision,
        bit_length(den as nat) + precision <= 127,
    ensures
        r.1 == normalizing_shift(num as nat, den as nat, precision as nat),
        r.0 == rounded_quotient(num as nat, den as nat, precision as nat),
        pow2((precision - 1) as nat) <= r.0 <= pow2(precision as nat),
        r.1 <= 127,
{
    let k: u32 = shift_to_normalize(num, den, precision);
    proof {
        lemma_pow2_wide();
        lemma_normalizing_shift(num as nat, den as nat, precision as nat);
        lemma_rounded_quotient_bounds(num as nat, den as nat, precision as nat);
        lemma_bit_length_bounds(den as nat);
        lemma_pow2_strictly_increases(bit_length(den as nat), 127);
    }
    let scale: u128 = power_of_two(k);
    let q: u128 = nearest_multiple(num * scale, den);
    (q, k)
}

/// Computes `signed_saturated`.
pub fn saturate(negative: bool, magnitude: u64) -> (r: i32)
    ensures
        r == signed_saturated(negative, magnitude as nat),
{
    if negative {
        if magnitude >= 0x8000_0000 {
            i32::MIN
        } else {
            -(magnitude as i32)
        }
    } else {
        if magnitude >= 0x7fff_ffff {
            i32::MAX
        } else {
            magnitude as i32
        }
    }
}

/// Computes `magnitude_of`.
pub fn magnitude(n: i32) -> (r: u128)
    ensures
        r == magnitude_of(n as int),
        r <= 0x8000_0000,
{
    if n < 0 {
        (-(n as i64)) as u128
    } else {
        n as u128
    }
}

} // verus!
