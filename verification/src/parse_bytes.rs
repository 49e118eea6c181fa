//! A cursor over the bytes of a phrase, and the grammar of a number.

use crate::errors::ParseError;
use crate::fraction::{
    all_digits, decimal_value, is_digit, lemma_decimal_value_prefix, Fraction, DIGIT_NINE,
    DIGIT_ZERO,
};
use crate::time_units::{find_end, name_end};
use regex::bytes::Regex;
use vstd::prelude::*;
use vstd::slice::slice_subrange;
use vstd::string::StringSliceAdditionalSpecFns;

verus! {

/// The ASCII space.
pub const SPACE: u8 = 0x20;

/// The ASCII minus sign.
pub const MINUS: u8 = 0x2d;

/// The ASCII full stop, which separates a number's whole part from its fraction.
pub const POINT: u8 = 0x2e;

/// The first position at or after `from` that holds no space: the end of the
/// text where only spaces follow.
pub open spec fn spaces_end(text: Seq<u8>, from: int) -> int
    decreases text.len() - from,
{
    if 0 <= from < text.len() && text[from] == SPACE {
        spaces_end(text, from + 1)
    } else {
        from
    }
}

/// The first position at or after `from` that holds no digit.
pub open spec fn digits_end(text: Seq<u8>, from: int) -> int
    decreases text.len() - from,
{
    if 0 <= from < text.len() && is_digit(text[from]) {
        digits_end(text, from + 1)
    } else {
        from
    }
}

/// Whether a byte ends a word: a space, a digit, a minus sign or a decimal point.
/// A unit's name holds none of these.
pub open spec fn is_break(byte: u8) -> bool {
    byte == SPACE || byte == MINUS || byte == POINT || is_digit(byte)
}

/// The first position at or after `from` that holds a byte that ends a word: the
/// end of the text where none follows.
pub open spec fn word_end(text: Seq<u8>, from: int) -> int
    decreases text.len() - from,
{
    if 0 <= from < text.len() && !is_break(text[from]) {
        word_end(text, from + 1)
    } else {
        from
    }
}

/// The word that starts at `from`: the bytes from there to the next byte that
/// ends a word.
pub open spec fn word_at(text: Seq<u8>, from: int) -> Seq<u8> {
    text.subrange(from, word_end(text, from))
}

/// Whether a minus sign stands at `at`.
pub open spec fn minus_at(text: Seq<u8>, at: int) -> bool {
    0 <= at < text.len() && text[at] == MINUS
}

/// Whether a decimal point stands at `at`.
pub open spec fn point_at(text: Seq<u8>, at: int) -> bool {
    0 <= at < text.len() && text[at] == POINT
}

/// A number as it stands in a text.
pub struct NumberSpan {
    /// The value of the digits before the decimal point.
    pub whole: int,
    /// The digits after the decimal point.
    pub fraction: Seq<u8>,
    /// The position behind the number.
    pub end: int,
}

/// The number that starts at `from`.
///
/// A number is a run of digits, then at most one decimal point with a run of
/// digits behind it. Either run may be empty, but a point alone is no number.
/// The whole part must fit in an `i64`.
pub open spec fn number_at(text: Seq<u8>, from: int) -> Result<NumberSpan, ParseError> {
    let point = digits_end(text, from);
    let end = if point_at(text, point) {
        digits_end(text, point + 1)
    } else {
        point
    };
    let whole = decimal_value(text.subrange(from, point));
    if whole > i64::MAX {
        Err(ParseError::NumberOutOfRange)
    } else if end == from || (end == from + 1 && point_at(text, point)) {
        Err(ParseError::NoNumber(from as usize))
    } else {
        Ok(
            NumberSpan {
                whole: whole as int,
                fraction: if point_at(text, point) {
                    text.subrange(point + 1, end)
                } else {
                    Seq::empty()
                },
                end,
            },
        )
    }
}

/// The spaces at a position end within the text, behind spaces only and before
/// a byte that is no space. Skipping them twice is skipping them once.
pub proof fn lemma_spaces_end(text: Seq<u8>, from: int)
    requires
        0 <= from <= text.len(),
    ensures
        from <= spaces_end(text, from) <= text.len(),
        forall|i: int| from <= i < spaces_end(text, from) ==> text[i] == SPACE,
        spaces_end(text, from) < text.len() ==> text[spaces_end(text, from)] != SPACE,
        spaces_end(text, spaces_end(text, from)) == spaces_end(text, from),
    decreases text.len() - from,
{
    if from < text.len() && text[from] == SPACE {
        lemma_spaces_end(text, from + 1);
    }
}

/// The digits at a position end within the text, behind digits only and before
/// a byte that is no digit.
pub proof fn lemma_digits_end(text: Seq<u8>, from: int)
    requires
        0 <= from <= text.len(),
    ensures
        from <= digits_end(text, from) <= text.len(),
        forall|i: int| from <= i < digits_end(text, from) ==> is_digit(text[i]),
        digits_end(text, from) < text.len() ==> !is_digit(text[digits_end(text, from)]),
        all_digits(text.subrange(from, digits_end(text, from))),
    decreases text.len() - from,
{
    if from < text.len() && is_digit(text[from]) {
        lemma_digits_end(text, from + 1);
    }
}

/// The word at a position ends within the text, before the first byte that ends
/// a word.
pub proof fn lemma_word_end(text: Seq<u8>, from: int)
    requires
        0 <= from <= text.len(),
    ensures
        from <= word_end(text, from) <= text.len(),
        forall|i: int| from <= i < word_end(text, from) ==> !is_break(text[i]),
        word_end(text, from) < text.len() ==> is_break(text[word_end(text, from)]),
    decreases text.len() - from,
{
    if from < text.len() && !is_break(text[from]) {
        lemma_word_end(text, from + 1);
    }
}

/// A number that is found ends behind its start and within the text, and its
/// fraction holds digits only.
pub proof fn lemma_number_at(text: Seq<u8>, from: int)
    requires
        0 <= from <= text.len(),
    ensures
        number_at(text, from) matches Ok(span) ==> from < span.end <= text.len() && 0 <= span.whole
            <= i64::MAX && all_digits(span.fraction),
{
    let point = digits_end(text, from);
    lemma_digits_end(text, from);
    if point_at(text, point) {
        lemma_digits_end(text, point + 1);
    }
}

/// Whether a byte ends a word.
pub fn is_break_byte(byte: u8) -> (ends: bool)
    ensures
        ends == is_break(byte),
{
    byte == SPACE || byte == MINUS || byte == POINT || (DIGIT_ZERO <= byte && byte <= DIGIT_NINE)
}

/// A cursor over a text: the bytes of the text, and how many of them have been
/// consumed. It only moves forward.
#[derive(Clone, Copy)]
pub struct ParseBytes<'l> {
    bytes: &'l [u8],
    position: usize,
}

impl<'l> ParseBytes<'l> {
    #[verifier::type_invariant]
    spec fn within(&self) -> bool {
        self.position <= self.bytes@.len()
    }

    /// The whole text, consumed or not.
    pub closed spec fn text(&self) -> Seq<u8> {
        self.bytes@
    }

    /// The number of bytes consumed so far.
    pub closed spec fn consumed(&self) -> nat {
        self.position as nat
    }

    /// A cursor at the start of `text`.
    pub fn from_str(text: &'l str) -> (bytes: Self)
        ensures
            bytes.text() == text.spec_bytes(),
            bytes.consumed() == 0,
    {
        ParseBytes { bytes: text.as_bytes(), position: 0 }
    }

    /// The word that comes next: the bytes up to the next space, digit, minus
    /// sign or decimal point.
    pub open spec fn next_word(&self) -> Seq<u8> {
        word_at(self.text(), self.consumed() as int)
    }

    /// The word that comes next, which may be empty.
    pub fn word(&self) -> (word: &'l [u8])
        ensures
            word@ == self.next_word(),
            self.consumed() + word@.len() <= self.text().len() <= usize::MAX,
    {
        proof {
            use_type_invariant(self);
            lemma_word_end(self.bytes@, self.position as int);
        }
        let mut end: usize = self.position;
        while end < self.bytes.len() && !is_break_byte(self.bytes[end])
            invariant
                self.position <= end <= self.bytes@.len(),
                word_end(self.bytes@, self.position as int) == word_end(self.bytes@, end as int),
            decreases self.bytes@.len() - end,
        {
            end += 1;
        }
        slice_subrange(self.bytes, self.position, end)
    }

    /// Consumes the name that `regex` finds in the word that comes next, and says
    /// whether it found one.
    pub fn parse_regex(&mut self, regex: &Regex) -> (found: bool)
        ensures
            final(self).text() == old(self).text(),
            found == name_end(*regex, old(self).next_word()).is_some(),
            final(self).consumed() == old(self).consumed() + match name_end(
                *regex,
                old(self).next_word(),
            ) {
                Some(end) => end as int,
                None => 0,
            },
            final(self).consumed() <= final(self).text().len(),
    {
        proof {
            use_type_invariant(&*self);
        }
        let word = self.word();
        match find_end(regex, word) {
            Some(end) => {
                self.position = self.position + end;
                true
            },
            None => false,
        }
    }

    /// Consumes a minus sign if one comes next, and says whether it did.
    pub fn parse_minus(&mut self) -> (found: bool)
        ensures
            final(self).text() == old(self).text(),
            found == minus_at(old(self).text(), old(self).consumed() as int),
            final(self).consumed() == old(self).consumed() + if found {
                1int
            } else {
                0int
            },
            final(self).consumed() <= final(self).text().len(),
    {
        proof {
            use_type_invariant(&*self);
        }
        if self.position < self.bytes.len() && self.bytes[self.position] == MINUS {
            self.position = self.position + 1;
            true
        } else {
            false
        }
    }

    /// Consumes a number: its whole part and the digits of its fraction.
    ///
    /// Where no number comes next, or its whole part does not fit in an `i64`,
    /// nothing is consumed.
    pub fn parse_number(&mut self) -> (number: Result<(i64, Fraction<'l>), ParseError>)
        ensures
            final(self).text() == old(self).text(),
            match number_at(old(self).text(), old(self).consumed() as int) {
                Ok(span) => number matches Ok((whole, fraction)) && whole == span.whole
                    && fraction@ == span.fraction && final(self).consumed() == span.end,
                Err(error) => number == Err::<(i64, Fraction<'l>), ParseError>(error)
                    && final(self).consumed() == old(self).consumed(),
            },
            final(self).consumed() <= final(self).text().len(),
    {
        proof {
            use_type_invariant(&*self);
        }
        let ghost text = self.bytes@;
        let start: usize = self.position;
        let length: usize = self.bytes.len();
        let mut whole: i64 = 0;
        let mut point: usize = start;
        proof {
            assert(decimal_value(text.subrange(start as int, start as int)) == 0);
        }
        while point < length && DIGIT_ZERO <= self.bytes[point] && self.bytes[point] <= DIGIT_NINE
            invariant
                *self == *old(self),
                text == self.bytes@,
                length == text.len(),
                start == self.position,
                start <= point <= length,
                digits_end(text, start as int) == digits_end(text, point as int),
                whole == decimal_value(text.subrange(start as int, point as int)),
            decreases length - point,
        {
            let digit: i64 = (self.bytes[point] - DIGIT_ZERO) as i64;
            let ghost longer = text.subrange(start as int, point + 1);
            proof {
                assert(longer.drop_last() =~= text.subrange(start as int, point as int));
                assert(decimal_value(longer) == whole * 10 + digit);
                lemma_digits_end(text, start as int);
                lemma_digits_end(text, point + 1);
                let full = text.subrange(start as int, digits_end(text, start as int));
                assert(full.take(point + 1 - start) =~= longer);
                lemma_decimal_value_prefix(full, point + 1 - start);
            }
            let shifted = match whole.checked_mul(10) {
                Some(shifted) => shifted,
                None => {
                    return Err(ParseError::NumberOutOfRange);
                },
            };
            whole = match shifted.checked_add(digit) {
                Some(sum) => sum,
                None => {
                    return Err(ParseError::NumberOutOfRange);
                },
            };
            point += 1;
        }
        let mut end: usize = point;
        if point < length && self.bytes[point] == POINT {
            end = point + 1;
            while end < length && DIGIT_ZERO <= self.bytes[end] && self.bytes[end] <= DIGIT_NINE
                invariant
                    *self == *old(self),
                    text == self.bytes@,
                    length == text.len(),
                    point < end <= length,
                    digits_end(text, point + 1) == digits_end(text, end as int),
                decreases length - end,
            {
                end += 1;
            }
        }
        proof {
            lemma_number_at(text, start as int);
        }
        if end == start || (end == start + 1 && end > point) {
            return Err(ParseError::NoNumber(start));
        }
        let digits = if end > point {
            proof {
                lemma_digits_end(text, point + 1);
                assert(text.subrange(point + 1, end as int) =~= text.subrange(
                    point + 1,
                    digits_end(text, point + 1),
                ));
            }
            slice_subrange(self.bytes, point + 1, end)
        } else {
            slice_subrange(self.bytes, end, end)
        };
        self.position = end;
        Ok((whole, Fraction::new(digits)))
    }

    /// Consumes the spaces that come next, if any.
    pub fn skip_spaces(&mut self)
        ensures
            final(self).text() == old(self).text(),
            final(self).consumed() == spaces_end(old(self).text(), old(self).consumed() as int),
            final(self).consumed() <= final(self).text().len(),
    {
        proof {
            use_type_invariant(&*self);
        }
        let ghost start = self.position;
        while self.position < self.bytes.len() && self.bytes[self.position] == SPACE
            invariant
                self.bytes == old(self).bytes,
                self.position <= self.bytes@.len(),
                spaces_end(self.bytes@, start as int) == spaces_end(
                    self.bytes@,
                    self.position as int,
                ),
            decreases self.bytes@.len() - self.position,
        {
            self.position = self.position + 1;
        }
    }

    /// Whether every byte has been consumed.
    pub fn is_empty(&self) -> (empty: bool)
        ensures
            empty == (self.consumed() == self.text().len()),
            self.consumed() <= self.text().len(),
    {
        proof {
            use_type_invariant(self);
        }
        self.position == self.bytes.len()
    }

    /// The number of bytes consumed so far: the position of the cursor in the text.
    pub fn offset(&self) -> (offset: usize)
        ensures
            offset == self.consumed(),
            offset <= self.text().len(),
    {
        proof {
            use_type_invariant(self);
        }
        self.position
    }
}

} // verus!
