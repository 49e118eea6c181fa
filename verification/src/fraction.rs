//! The digits behind a decimal point, kept exactly.

use vstd::arithmetic::div_mod::{lemma_div_denominator, lemma_hoist_over_denominator};
use vstd::prelude::*;

verus! {

/// The ASCII digit `0`.
pub const DIGIT_ZERO: u8 = 0x30;

/// The ASCII digit `9`.
pub const DIGIT_NINE: u8 = 0x39;

/// Whether a byte is one of the ASCII digits `0` to `9`.
pub open spec fn is_digit(byte: u8) -> bool {
    DIGIT_ZERO <= byte <= DIGIT_NINE
}

/// Whether every byte of a sequence is an ASCII digit.
pub open spec fn all_digits(digits: Seq<u8>) -> bool {
    forall|i: int| 0 <= i < digits.len() ==> is_digit(#[trigger] digits[i])
}

/// Ten to the power `places`.
pub open spec fn pow10(places: nat) -> nat
    decreases places,
{
    if places == 0 {
        1
    } else {
        10 * pow10((places - 1) as nat)
    }
}

/// The number that a run of ASCII digits writes in base ten; zero for no digits.
pub open spec fn decimal_value(digits: Seq<u8>) -> nat
    decreases digits.len(),
{
    if digits.len() == 0 {
        0
    } else {
        decimal_value(digits.drop_last()) * 10 + (digits.last() - DIGIT_ZERO) as nat
    }
}

/// `factor` times the fraction `0.digits`, rounded down to a whole number.
pub open spec fn scaled_floor(digits: Seq<u8>, factor: int) -> int {
    (factor * decimal_value(digits)) / (pow10(digits.len()) as int)
}

/// A power of ten is positive.
pub proof fn lemma_pow10_positive(places: nat)
    ensures
        pow10(places) > 0,
    decreases places,
{
    if places > 0 {
        lemma_pow10_positive((places - 1) as nat);
    }
}

/// A run of digits is worth less than ten to the power of its length.
pub proof fn lemma_decimal_value_bound(digits: Seq<u8>)
    requires
        all_digits(digits),
    ensures
        decimal_value(digits) < pow10(digits.len()),
    decreases digits.len(),
{
    if digits.len() > 0 {
        lemma_decimal_value_bound(digits.drop_last());
    }
}

/// Reading on can only make the number larger.
pub proof fn lemma_decimal_value_prefix(digits: Seq<u8>, count: int)
    requires
        all_digits(digits),
        0 <= count <= digits.len(),
    ensures
        decimal_value(digits.take(count)) <= decimal_value(digits),
    decreases digits.len(),
{
    if count < digits.len() {
        let shorter = digits.drop_last();
        lemma_decimal_value_prefix(shorter, count);
        assert(shorter.take(count) =~= digits.take(count));
    } else {
        assert(digits.take(count) =~= digits);
    }
}

/// The value of a run of digits, split at its first digit.
pub proof fn lemma_decimal_value_leading(digits: Seq<u8>)
    requires
        all_digits(digits),
        digits.len() > 0,
    ensures
        decimal_value(digits) == (digits[0] - DIGIT_ZERO) * pow10((digits.len() - 1) as nat)
            + decimal_value(digits.subrange(1, digits.len() as int)),
    decreases digits.len(),
{
    let tail = digits.subrange(1, digits.len() as int);
    if digits.len() == 1 {
        assert(decimal_value(digits.drop_last()) == 0);
        assert(decimal_value(tail) == 0);
        assert(pow10(0) == 1);
        assert(digits.last() == digits[0]);
        assert(decimal_value(digits) == digits[0] - DIGIT_ZERO);
        assert(pow10((digits.len() - 1) as nat) == 1);
        assert((digits[0] - DIGIT_ZERO) * 1 == digits[0] - DIGIT_ZERO);
    } else {
        let shorter = digits.drop_last();
        lemma_decimal_value_leading(shorter);
        assert(shorter.subrange(1, shorter.len() as int) =~= tail.drop_last());
        assert(tail.last() == digits.last());
        assert(shorter[0] == digits[0]);
        let lead = (digits[0] - DIGIT_ZERO) as int;
        let high = pow10((shorter.len() - 1) as nat) as int;
        assert(pow10((digits.len() - 1) as nat) == 10 * high);
        assert((lead * high) * 10 == lead * (10 * high)) by (nonlinear_arith);
        assert(decimal_value(tail) == decimal_value(tail.drop_last()) * 10 + (tail.last()
            - DIGIT_ZERO));
        assert(decimal_value(shorter) == lead * high + decimal_value(tail.drop_last()));
        assert(decimal_value(digits) == decimal_value(shorter) * 10 + (digits.last() - DIGIT_ZERO));
        assert(lead * pow10((digits.len() - 1) as nat) == (lead * high) * 10);
    }
}

/// A run of digits is worth zero exactly when each of them is `0`.
pub proof fn lemma_decimal_value_zero(digits: Seq<u8>)
    requires
        all_digits(digits),
    ensures
        decimal_value(digits) == 0 <==> forall|i: int|
            0 <= i < digits.len() ==> #[trigger] digits[i] == DIGIT_ZERO,
    decreases digits.len(),
{
    if digits.len() > 0 {
        let shorter = digits.drop_last();
        lemma_decimal_value_zero(shorter);
        if decimal_value(digits) == 0 {
            assert forall|i: int| 0 <= i < digits.len() implies #[trigger] digits[i] == DIGIT_ZERO by {
                if i < shorter.len() {
                    assert(shorter[i] == digits[i]);
                }
            }
        } else {
            if decimal_value(shorter) != 0 {
                let i = choose|i: int| 0 <= i < shorter.len() && #[trigger] shorter[i] != DIGIT_ZERO;
                assert(digits[i] == shorter[i]);
            }
        }
    }
}

/// The scaled fraction is never negative and stays below the factor.
pub proof fn lemma_scaled_floor_bound(digits: Seq<u8>, factor: int)
    requires
        all_digits(digits),
        0 <= factor,
    ensures
        0 <= scaled_floor(digits, factor),
        factor > 0 ==> scaled_floor(digits, factor) < factor,
        factor == 0 ==> scaled_floor(digits, factor) == 0,
{
    let value = decimal_value(digits) as int;
    let scale = pow10(digits.len()) as int;
    lemma_decimal_value_bound(digits);
    lemma_pow10_positive(digits.len());
    assert(0 <= factor * value) by (nonlinear_arith)
        requires
            0 <= factor,
            0 <= value,
    ;
    assert(0 <= (factor * value) / scale) by (nonlinear_arith)
        requires
            0 <= factor * value,
            0 < scale,
    ;
    if factor > 0 {
        assert((factor * value) / scale < factor) by (nonlinear_arith)
            requires
                0 < factor,
                0 <= value < scale,
        ;
    } else {
        assert(factor * value == 0) by (nonlinear_arith)
            requires
                factor == 0,
        ;
    }
}

/// One step of long multiplication from the right: the carry out of a digit is
/// the scaled value of the digits from there on.
proof fn lemma_scaled_floor_step(digits: Seq<u8>, factor: int)
    requires
        all_digits(digits),
        digits.len() > 0,
        0 <= factor,
    ensures
        scaled_floor(digits, factor) == (factor * (digits[0] - DIGIT_ZERO) + scaled_floor(
            digits.subrange(1, digits.len() as int),
            factor,
        )) / 10,
{
    let tail = digits.subrange(1, digits.len() as int);
    let lead = (digits[0] - DIGIT_ZERO) as int;
    let high = pow10(tail.len()) as int;
    let rest = factor * decimal_value(tail);
    lemma_decimal_value_leading(digits);
    lemma_pow10_positive(tail.len());
    assert(pow10(digits.len()) == 10 * high);
    assert(factor * decimal_value(digits) == rest + (factor * lead) * high) by (nonlinear_arith)
        requires
            decimal_value(digits) == lead * high + decimal_value(tail),
            rest == factor * decimal_value(tail),
    ;
    assert(0 <= rest + (factor * lead) * high) by (nonlinear_arith)
        requires
            0 <= factor,
            0 <= lead,
            0 < high,
            0 <= rest,
    ;
    lemma_hoist_over_denominator(rest, factor * lead, high as nat);
    lemma_div_denominator(rest + (factor * lead) * high, high, 10);
    assert(high * 10 == 10 * high);
}

/// The digits that follow a decimal point: the fraction `0.digits`, which lies in
/// `[0, 1)`. No digits at all stand for zero.
pub struct Fraction<'l> {
    digits: &'l [u8],
}

impl<'l> View for Fraction<'l> {
    type V = Seq<u8>;

    closed spec fn view(&self) -> Seq<u8> {
        self.digits@
    }
}

impl<'l> Fraction<'l> {
    #[verifier::type_invariant]
    spec fn digits_only(&self) -> bool {
        all_digits(self.digits@)
    }

    /// The fraction written by `digits`.
    pub fn new(digits: &'l [u8]) -> (fraction: Self)
        requires
            all_digits(digits@),
        ensures
            fraction@ == digits@,
    {
        Fraction { digits }
    }

    /// Whether the fraction is exactly zero.
    pub fn is_zero(&self) -> (zero: bool)
        ensures
            zero == (decimal_value(self@) == 0),
    {
        proof {
            use_type_invariant(self);
            lemma_decimal_value_zero(self.digits@);
        }
        let mut index: usize = 0;
        while index < self.digits.len()
            invariant
                index <= self.digits@.len(),
                forall|i: int| 0 <= i < index ==> #[trigger] self.digits@[i] == DIGIT_ZERO,
                decimal_value(self.digits@) == 0 <==> forall|i: int|
                    0 <= i < self.digits@.len() ==> #[trigger] self.digits@[i] == DIGIT_ZERO,
            decreases self.digits@.len() - index,
        {
            if self.digits[index] != DIGIT_ZERO {
                assert(self.digits@[index as int] != DIGIT_ZERO);
                return false;
            }
            index += 1;
        }
        true
    }

    /// The fraction of `factor`, rounded down: `factor` times `0.digits`, without
    /// its own fractional part.
    pub fn scale(&self, factor: u64) -> (part: u64)
        ensures
            part == scaled_floor(self@, factor as int),
            part <= factor,
    {
        proof {
            use_type_invariant(self);
        }
        let count: usize = self.digits.len();
        let mut index: usize = count;
        let mut carry: u64 = 0;
        proof {
            let none = self.digits@.subrange(count as int, count as int);
            assert(decimal_value(none) == 0);
            assert(factor * decimal_value(none) == 0);
            assert(pow10(0) == 1);
        }
        while index > 0
            invariant
                index <= count,
                count == self.digits@.len(),
                all_digits(self.digits@),
                carry == scaled_floor(self.digits@.subrange(index as int, count as int), factor as int),
                carry <= factor,
            decreases index,
        {
            index -= 1;
            let digit: u8 = self.digits[index] - DIGIT_ZERO;
            proof {
                let from = self.digits@.subrange(index as int, count as int);
                assert(from.subrange(1, from.len() as int) =~= self.digits@.subrange(
                    index + 1,
                    count as int,
                ));
                assert(from[0] == self.digits@[index as int]);
                lemma_scaled_floor_step(from, factor as int);
                lemma_scaled_floor_bound(from, factor as int);
            }
            let sum: u128 = factor as u128 * digit as u128 + carry as u128;
            carry = (sum / 10) as u64;
        }
        proof {
            assert(self.digits@.subrange(0, count as int) =~= self.digits@);
        }
        carry
    }
}

} // verus!
