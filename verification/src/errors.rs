//! The errors of the parser, and the diagnosis of a unit that is not accepted.

use crate::parse_bytes::ParseBytes;
use crate::time_units::{name_end, TimeUnit, FIRST_FIXED_UNIT};
use vstd::prelude::*;

verus! {

/// Why a phrase could not be turned into a duration.
///
/// The positions are byte offsets into the phrase.
#[non_exhaustive]
#[derive(Debug, PartialEq, Eq, Clone, Copy)]
pub enum ParseError {
    /// The phrase was empty or held only spaces.
    Empty,
    /// A number was expected at this position.
    NoNumber(usize),
    /// No known unit starts at this position.
    NoUnit(usize),
    /// The unit at this position was already passed: units must come in strictly
    /// descending order of size, each at most once.
    UnitOutOfSequence(usize),
    /// A year or month was given where no reference date is allowed.
    InconstantUnitWithoutDate,
    /// A year or month was given a fractional amount.
    InconstantUnitWithFraction,
    /// Moving the date by years or months left the range of dates, or there were
    /// more months than a date can be moved by.
    DateOutOfRange,
    /// A number or a duration left the range that can be represented.
    NumberOutOfRange,
}

/// The first of `units[from..to]` whose name is found in `word`.
pub open spec fn first_match(units: Seq<TimeUnit>, word: Seq<u8>, from: int, to: int) -> Option<
    int,
>
    decreases to - from,
{
    if from >= to {
        None
    } else if name_end(units[from].regex, word).is_some() {
        Some(from)
    } else {
        first_match(units, word, from + 1, to)
    }
}

/// The error for a position where none of the units still allowed stands.
///
/// `passed` is the first unit already passed that does stand there, if any. A
/// year or month where no date is allowed is reported as such; any other unit
/// that was passed is out of sequence; and where no unit stands at all, there is
/// no unit.
pub open spec fn diagnosis(passed: Option<int>, position: int, allow_inconstant: bool)
    -> ParseError {
    match passed {
        Some(index) => if index < FIRST_FIXED_UNIT && !allow_inconstant {
            ParseError::InconstantUnitWithoutDate
        } else {
            ParseError::UnitOutOfSequence(position as usize)
        },
        None => ParseError::NoUnit(position as usize),
    }
}

/// A found unit is within the range searched, and is the first that matches.
pub proof fn lemma_first_match(units: Seq<TimeUnit>, word: Seq<u8>, from: int, to: int)
    ensures
        match first_match(units, word, from, to) {
            Some(index) => from <= index < to && name_end(units[index].regex, word).is_some()
                && forall|earlier: int|
                from <= earlier < index ==> name_end(
                    #[trigger] units[earlier].regex,
                    word,
                ).is_none(),
            None => forall|index: int|
                from <= index < to ==> name_end(
                    #[trigger] units[index].regex,
                    word,
                ).is_none(),
        },
    decreases to - from,
{
    if from < to {
        lemma_first_match(units, word, from + 1, to);
    }
}

/// Searching two adjoining ranges in turn is searching their union.
pub proof fn lemma_first_match_split(
    units: Seq<TimeUnit>,
    word: Seq<u8>,
    from: int,
    middle: int,
    to: int,
)
    requires
        from <= middle <= to,
    ensures
        first_match(units, word, from, to) == match first_match(
            units,
            word,
            from,
            middle,
        ) {
            Some(index) => Some(index),
            None => first_match(units, word, middle, to),
        },
    decreases middle - from,
{
    if from < middle {
        lemma_first_match_split(units, word, from + 1, middle, to);
    }
}

impl ParseError {
    /// The error for a position where no unit still allowed stands, given the
    /// first unit already passed that stands there.
    pub fn classify(passed: Option<usize>, position: usize, allow_inconstant: bool) -> (error:
        Self)
        ensures
            error == diagnosis(
                match passed {
                    Some(index) => Some(index as int),
                    None => None,
                },
                position as int,
                allow_inconstant,
            ),
    {
        match passed {
            Some(index) => if index < FIRST_FIXED_UNIT && !allow_inconstant {
                ParseError::InconstantUnitWithoutDate
            } else {
                ParseError::UnitOutOfSequence(position)
            },
            None => ParseError::NoUnit(position),
        }
    }

    /// Finds out why no unit was accepted at the cursor, by trying the units
    /// before `unit_cursor`, which were passed already.
    pub fn diagnose_unit_error(
        bytes: &ParseBytes,
        units: &[TimeUnit],
        unit_cursor: usize,
        allow_inconstant: bool,
    ) -> (error: Self)
        requires
            unit_cursor <= units@.len(),
        ensures
            error == diagnosis(
                first_match(units@, bytes.next_word(), 0, unit_cursor as int),
                bytes.consumed() as int,
                allow_inconstant,
            ),
    {
        let position = bytes.offset();
        let mut index: usize = 0;
        let mut passed: Option<usize> = None;
        while index < unit_cursor
            invariant_except_break
                passed is None,
                first_match(units@, bytes.next_word(), 0, unit_cursor as int) == first_match(
                    units@,
                    bytes.next_word(),
                    index as int,
                    unit_cursor as int,
                ),
            invariant
                index <= unit_cursor <= units@.len(),
            ensures
                first_match(units@, bytes.next_word(), 0, unit_cursor as int) == match passed {
                    Some(found) => Some(found as int),
                    None => None,
                },
            decreases unit_cursor - index,
        {
            let mut probe = *bytes;
            if probe.parse_regex(&units[index].regex) {
                passed = Some(index);
                break ;
            }
            index += 1;
        }
        Self::classify(passed, position, allow_inconstant)
    }
}

} // verus!
