//! Decimal numerals, and numbers too wide for the machine as decimal digits.
//!
//! A numeral is text: ASCII digits, the most significant first. A number
//! that may be wider than any machine number is held as its decimal digits,
//! the least significant first, so that it can be doubled digit by digit.

use vstd::prelude::*;

verus! {

/// The character `0`.
pub const ZERO: u8 = 48;

/// The decimal numeral of `n`: its digits as characters, the most
/// significant first, with no zero in front.
pub open spec fn numeral(n: nat) -> Seq<u8>
    decreases n,
{
    if n < 10 {
        seq![(ZERO + n) as u8]
    } else {
        numeral(n / 10).push((ZERO + n % 10) as u8)
    }
}

/// The last `width` digits of `n` as characters, the most significant
/// first, with zeros in front where `n` has fewer.
pub open spec fn padded_numeral(n: nat, width: nat) -> Seq<u8>
    decreases width,
{
    if width == 0 {
        Seq::empty()
    } else {
        padded_numeral(n / 10, (width - 1) as nat).push((ZERO + n % 10) as u8)
    }
}

/// `10^n`.
pub open spec fn power_of_ten(n: nat) -> nat
    decreases n,
{
    if n == 0 {
        1
    } else {
        10 * power_of_ten((n - 1) as nat)
    }
}

/// The number that decimal digits, the least significant first, stand for.
pub open spec fn digits_value(digits: Seq<u8>) -> nat
    decreases digits.len(),
{
    if digits.len() == 0 {
        0
    } else {
        digits[0] as nat + 10 * digits_value(digits.drop_first())
    }
}

/// Whether `digits` are the digits of a number, each one written once: at
/// least one digit, each below ten, and none that is zero at the
/// significant end but for zero itself.
pub open spec fn canonical(digits: Seq<u8>) -> bool {
    &&& digits.len() >= 1
    &&& forall|i: int| 0 <= i < digits.len() ==> #[trigger] digits[i] < 10
    &&& digits.len() == 1 || digits.last() != 0
}

/// The digits as characters, the most significant first.
pub open spec fn written(digits: Seq<u8>) -> Seq<u8> {
    Seq::new(digits.len(), |i: int| (ZERO + digits[digits.len() - 1 - i]) as u8)
}

/// One more digit at the significant end adds the digit times the power of
/// ten of its place.
pub proof fn lemma_digits_value_push(digits: Seq<u8>, digit: u8)
    ensures
        digits_value(digits.push(digit)) == digits_value(digits) + digit * power_of_ten(
            digits.len(),
        ),
    decreases digits.len(),
{
    let longer = digits.push(digit);
    assert(digits_value(longer) == longer[0] + 10 * digits_value(longer.drop_first()));
    if digits.len() == 0 {
        assert(longer.drop_first() =~= Seq::<u8>::empty());
        assert(digits_value(longer.drop_first()) == 0);
        assert(digit * 1 == digit) by (nonlinear_arith);
    } else {
        assert(longer.drop_first() =~= digits.drop_first().push(digit));
        lemma_digits_value_push(digits.drop_first(), digit);
        let below = power_of_ten((digits.len() - 1) as nat);
        assert(power_of_ten(digits.len()) == 10 * below);
        assert(10 * (digit * below) == digit * (10 * below)) by (nonlinear_arith);
    }
}

/// Digits that end in one that is not zero stand for a positive number.
pub proof fn lemma_digits_value_is_positive(digits: Seq<u8>)
    requires
        digits.len() >= 1,
        digits.last() != 0,
    ensures
        digits_value(digits) > 0,
    decreases digits.len(),
{
    if digits.len() > 1 {
        assert(digits.drop_first().last() == digits.last());
        lemma_digits_value_is_positive(digits.drop_first());
    }
}

/// The digits of a number, written out, are its numeral.
pub proof fn lemma_written_is_numeral(digits: Seq<u8>)
    requires
        canonical(digits),
    ensures
        written(digits) == numeral(digits_value(digits)),
    decreases digits.len(),
{
    let rest = digits.drop_first();
    if digits.len() == 1 {
        assert(rest.len() == 0);
        assert(digits_value(rest) == 0);
        assert(written(digits) =~= seq![(ZERO + digits[0]) as u8]);
    } else {
        assert(rest.last() == digits.last());
        assert(canonical(rest)) by {
            assert forall|i: int| 0 <= i < rest.len() implies #[trigger] rest[i] < 10 by {
                assert(rest[i] == digits[i + 1]);
            }
        }
        lemma_digits_value_is_positive(rest);
        lemma_written_is_numeral(rest);
        let n = digits_value(digits);
        assert(n / 10 == digits_value(rest) && n % 10 == digits[0]);
        assert(written(digits) =~= written(rest).push((ZERO + digits[0]) as u8));
    }
}

/// The digits of `n`.
pub fn digits_of(n: u128) -> (digits: Vec<u8>)
    ensures
        canonical(digits@),
        digits_value(digits@) == n,
{
    let mut digits: Vec<u8> = Vec::new();
    let first: u8 = (n % 10) as u8;
    digits.push(first);
    let mut rest: u128 = n / 10;
    proof {
        lemma_digits_value_push(Seq::<u8>::empty(), first);
        assert(digits@ =~= Seq::<u8>::empty().push(first));
        assert(digits_value(Seq::<u8>::empty()) == 0);
        assert(power_of_ten(0) == 1);
        assert(power_of_ten(1) == 10 * power_of_ten(0));
        assert(first * 1 == first) by (nonlinear_arith);
    }
    while rest > 0
        invariant
            digits@.len() >= 1,
            forall|i: int| 0 <= i < digits@.len() ==> #[trigger] digits@[i] < 10,
            digits_value(digits@) + rest * power_of_ten(digits@.len()) == n,
            rest == 0 ==> digits@.len() == 1 || digits@.last() != 0,
        decreases rest,
    {
        let digit: u8 = (rest % 10) as u8;
        proof {
            lemma_digits_value_push(digits@, digit);
            let place = power_of_ten(digits@.len());
            assert(power_of_ten(digits@.len() + 1) == 10 * place);
            assert(rest * place == digit * place + (rest / 10) * (10 * place))
                by (nonlinear_arith)
                requires
                    rest == 10 * (rest / 10) + digit,
            ;
        }
        digits.push(digit);
        rest = rest / 10;
    }
    proof {
        assert(0 * power_of_ten(digits@.len()) == 0) by (nonlinear_arith);
    }
    digits
}

/// The digits of twice the number that `digits` stand for.
pub(crate) fn double_digits(digits: &Vec<u8>) -> (doubled: Vec<u8>)
    requires
        canonical(digits@),
    ensures
        canonical(doubled@),
        digits_value(doubled@) == 2 * digits_value(digits@),
{
    let mut doubled: Vec<u8> = Vec::new();
    let mut carry: u8 = 0;
    let mut i: usize = 0;
    proof {
        assert(digits@.take(0) =~= Seq::<u8>::empty());
        assert(digits_value(Seq::<u8>::empty()) == 0);
        assert(doubled@ =~= Seq::<u8>::empty());
    }
    while i < digits.len()
        invariant
            i <= digits.len(),
            canonical(digits@),
            doubled@.len() == i,
            carry <= 1,
            forall|j: int| 0 <= j < i ==> #[trigger] doubled@[j] < 10,
            digits_value(doubled@) + carry * power_of_ten(i as nat) == 2 * digits_value(
                digits@.take(i as int),
            ),
            i > 0 && carry == 0 ==> doubled@[i - 1] >= 2 * digits@[i - 1],
        decreases digits.len() - i,
    {
        let digit: u8 = digits[i];
        let twice: u8 = 2 * digit + carry;
        let low: u8 = twice % 10;
        let high: u8 = twice / 10;
        proof {
            let place = power_of_ten(i as nat);
            assert(digits@.take(i + 1) =~= digits@.take(i as int).push(digit));
            lemma_digits_value_push(digits@.take(i as int), digit);
            lemma_digits_value_push(doubled@, low);
            assert(power_of_ten((i + 1) as nat) == 10 * place);
            assert(low * place + high * (10 * place) == carry * place + 2 * (digit * place))
                by (nonlinear_arith)
                requires
                    low + 10 * high == 2 * digit + carry,
            ;
        }
        doubled.push(low);
        carry = high;
        i = i + 1;
    }
    proof {
        assert(digits@.take(digits@.len() as int) =~= digits@);
    }
    if carry > 0 {
        proof {
            lemma_digits_value_push(doubled@, carry);
        }
        doubled.push(carry);
    } else {
        proof {
            assert(0 * power_of_ten(i as nat) == 0) by (nonlinear_arith);
        }
    }
    doubled
}

/// Appends the characters of the digits, the most significant first.
pub(crate) fn write_digits(text: &mut Vec<u8>, digits: &Vec<u8>)
    requires
        canonical(digits@),
    ensures
        final(text)@ == old(text)@ + numeral(digits_value(digits@)),
{
    let ghost before = text@;
    let mut left: usize = digits.len();
    proof {
        lemma_written_is_numeral(digits@);
        assert(text@ =~= before + written(digits@).take(0));
    }
    while left > 0
        invariant
            left <= digits.len(),
            canonical(digits@),
            text@ == before + written(digits@).take(digits.len() - left),
        decreases left,
    {
        left = left - 1;
        let digit: u8 = digits[left];
        proof {
            let done = digits.len() - left - 1;
            assert(written(digits@).take(done + 1) =~= written(digits@).take(done).push(
                (ZERO + digit) as u8,
            ));
            assert((before + written(digits@).take(done)).push((ZERO + digit) as u8) =~= before
                + written(digits@).take(done + 1));
        }
        text.push(ZERO + digit);
    }
    proof {
        assert(written(digits@).take(digits.len() as int) =~= written(digits@));
    }
}

/// Appends the last six digits of `n` as characters, with zeros in front.
pub fn write_six_digits(text: &mut Vec<u8>, n: u32)
    ensures
        final(text)@ == old(text)@ + padded_numeral(n as nat, 6),
{
    let d0: u8 = (n % 10) as u8;
    let n1: u32 = n / 10;
    let d1: u8 = (n1 % 10) as u8;
    let n2: u32 = n1 / 10;
    let d2: u8 = (n2 % 10) as u8;
    let n3: u32 = n2 / 10;
    let d3: u8 = (n3 % 10) as u8;
    let n4: u32 = n3 / 10;
    let d4: u8 = (n4 % 10) as u8;
    let n5: u32 = n4 / 10;
    let d5: u8 = (n5 % 10) as u8;
    let ghost before = text@;
    proof {
        reveal_with_fuel(padded_numeral, 7);
        assert(padded_numeral(n as nat, 6) =~= seq![
            (ZERO + d5) as u8,
            (ZERO + d4) as u8,
            (ZERO + d3) as u8,
            (ZERO + d2) as u8,
            (ZERO + d1) as u8,
            (ZERO + d0) as u8,
        ]);
    }
    text.push(ZERO + d5);
    text.push(ZERO + d4);
    text.push(ZERO + d3);
    text.push(ZERO + d2);
    text.push(ZERO + d1);
    text.push(ZERO + d0);
    proof {
        assert(text@ =~= before + padded_numeral(n as nat, 6));
    }
}

} // verus!
