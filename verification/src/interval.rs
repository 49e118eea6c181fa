//! The reading of a phrase, term by term.
//!
//! A phrase is read from left to right. Each term is a run of minus signs, a
//! number and a unit. The units of a phrase come in the order of the table, so a
//! cursor into the table only moves forward. Weeks and smaller units add to a
//! running duration; years and months move a date, whose distance from the
//! reference date is added once the phrase has been read.

use crate::calendar::{
    add_months, delta_fits, delta_nanos, months_added, months_subtracted, sub_months,
    time_between, MAX_DELTA_SECONDS, NANOS_PER_SECOND,
};
use crate::errors::{diagnosis, first_match, lemma_first_match, ParseError};
use crate::fraction::{decimal_value, scaled_floor, Fraction};
use crate::parse_bytes::{
    lemma_number_at, lemma_spaces_end, lemma_word_end, minus_at, number_at, spaces_end, word_at,
    ParseBytes,
};
use crate::time_units::{
    name_end, unit_seconds, unit_table, TimeUnit, UnitTable, FIRST_FIXED_UNIT, UNIT_COUNT,
};
use chrono::{NaiveDateTime, TimeDelta};
use vstd::prelude::*;
use vstd::string::StringSliceAdditionalSpecFns;

verus! {

/// What has been read of a phrase when a term begins.
pub struct Tally {
    /// The position of the term in the phrase.
    pub position: int,
    /// Whether terms are being subtracted: every minus sign read so far has
    /// toggled this.
    pub subtracting: bool,
    /// The first unit of the table that a term may still use.
    pub unit_cursor: int,
    /// The sum of the weeks, days, hours, minutes and seconds read so far, in
    /// nanoseconds.
    pub nanos: int,
    /// The reference date, and the date that the years and months read so far
    /// have moved it to. `None` until a year or a month has been read.
    pub dates: Option<(NaiveDateTime, NaiveDateTime)>,
}

/// How the reading of a phrase ends.
pub enum Verdict {
    /// With a duration in nanoseconds, or with an error.
    Done(Result<int, ParseError>),
    /// Before the first year or month, for want of a reference date.
    Waiting(Tally),
}

/// What one term does to the reading.
pub enum Step {
    /// The term was read; the next one begins here.
    Advance(Tally),
    /// The reading ends.
    Halt(Verdict),
}

/// The tally before the first term, which begins at `position`. Where years and
/// months are not allowed, the cursor starts behind them.
pub open spec fn opening(position: int, allow_inconstant: bool) -> Tally {
    Tally {
        position,
        subtracting: false,
        unit_cursor: if allow_inconstant {
            0
        } else {
            FIRST_FIXED_UNIT as int
        },
        nanos: 0,
        dates: None,
    }
}

/// The position behind the minus signs that stand at `from`, each with the
/// spaces that follow it.
pub open spec fn signs_end(text: Seq<u8>, from: int) -> int
    decreases text.len() - from,
    via signs_end_decreases
{
    if minus_at(text, from) {
        signs_end(text, spaces_end(text, from + 1))
    } else {
        from
    }
}

#[via_fn]
proof fn signs_end_decreases(text: Seq<u8>, from: int) {
    if minus_at(text, from) {
        lemma_spaces_end(text, from + 1);
    }
}

/// The direction behind the minus signs that stand at `from`, each with the
/// spaces that follow it, where the direction before them is `subtracting`: each
/// minus sign toggles it.
pub open spec fn direction_behind(text: Seq<u8>, from: int, subtracting: bool) -> bool
    decreases text.len() - from,
    via direction_behind_decreases
{
    if minus_at(text, from) {
        direction_behind(text, spaces_end(text, from + 1), !subtracting)
    } else {
        subtracting
    }
}

#[via_fn]
proof fn direction_behind_decreases(text: Seq<u8>, from: int, subtracting: bool) {
    if minus_at(text, from) {
        lemma_spaces_end(text, from + 1);
    }
}

/// Whether a number of whole seconds fits in a `TimeDelta`.
pub open spec fn seconds_fit(seconds: int) -> bool {
    -MAX_DELTA_SECONDS <= seconds <= MAX_DELTA_SECONDS
}

/// The running sum after a term in weeks, days, hours, minutes or seconds.
///
/// The term is worth `whole` units of `seconds` each, and the fraction of one
/// more unit, rounded down to whole seconds. Both parts are added to the sum, or
/// both subtracted, one after the other. It is an error if a part or a sum on
/// the way does not fit in a `TimeDelta`.
pub open spec fn fixed_term(
    nanos: int,
    subtracting: bool,
    whole: int,
    fraction: Seq<u8>,
    seconds: int,
) -> Result<int, ParseError> {
    let span = whole * seconds;
    let part = scaled_floor(fraction, seconds);
    let first = if subtracting {
        nanos - span * NANOS_PER_SECOND
    } else {
        nanos + span * NANOS_PER_SECOND
    };
    let second = if subtracting {
        first - part * NANOS_PER_SECOND
    } else {
        first + part * NANOS_PER_SECOND
    };
    if seconds_fit(span) && seconds_fit(part) && delta_fits(first) && delta_fits(second) {
        Ok(second)
    } else {
        Err(ParseError::NumberOutOfRange)
    }
}

/// The months that a term in years (`unit` 0) or months (`unit` 1) stands for.
pub open spec fn month_count(whole: int, unit: int) -> int {
    if unit == 0 {
        whole * 12
    } else {
        whole
    }
}

/// The date after a term in years or months, which moves `base` forward, or back
/// when subtracting. The date is out of range where the date moved leaves the
/// range of dates, and where the count of months is more than a date can be
/// moved by at all, which is `u32::MAX`. A negative count, which no phrase
/// gives, is a number out of range.
pub open spec fn calendar_term(base: NaiveDateTime, subtracting: bool, whole: int, unit: int)
    -> Result<NaiveDateTime, ParseError> {
    let months = month_count(whole, unit);
    if months < 0 {
        Err(ParseError::NumberOutOfRange)
    } else if months > u32::MAX {
        Err(ParseError::DateOutOfRange)
    } else {
        let moved = if subtracting {
            months_subtracted(base, months as u32)
        } else {
            months_added(base, months as u32)
        };
        match moved {
            Some(date) => Ok(date),
            None => Err(ParseError::DateOutOfRange),
        }
    }
}

/// The result once the phrase has been read: the running sum, and with it the
/// time from the reference date to the date that the years and months gave.
pub open spec fn settled(nanos: int, dates: Option<(NaiveDateTime, NaiveDateTime)>) -> Result<
    int,
    ParseError,
> {
    match dates {
        Some((reference, moved)) => {
            let total = nanos + time_between(moved, reference);
            if delta_fits(total) {
                Ok(total)
            } else {
                Err(ParseError::NumberOutOfRange)
            }
        },
        None => Ok(nanos),
    }
}

/// A term as it stands in a phrase.
pub struct Term {
    /// Whether the term is subtracted: the direction before it, toggled by each
    /// of its minus signs.
    pub subtracting: bool,
    /// The whole part of its number.
    pub whole: int,
    /// The digits behind the decimal point of its number.
    pub fraction: Seq<u8>,
    /// The index of its unit in the table.
    pub unit: int,
    /// The position behind the term and the spaces that follow it.
    pub next: int,
}

/// The term that begins at `position`: its minus signs, its number, and the
/// first unit from `unit_cursor` on whose name is found in the word behind the
/// number. Spaces may stand behind each sign, behind the number and behind the
/// unit.
///
/// Without a number, the error of [`number_at`]; without a unit, the error that
/// [`diagnosis`] gives for the units before the cursor.
pub open spec fn term_at(
    text: Seq<u8>,
    position: int,
    subtracting: bool,
    unit_cursor: int,
    allow_inconstant: bool,
) -> Result<Term, ParseError> {
    match number_at(text, signs_end(text, position)) {
        Err(error) => Err(error),
        Ok(number) => {
            let at = spaces_end(text, number.end);
            let word = word_at(text, at);
            match first_match(unit_table(), word, unit_cursor, UNIT_COUNT as int) {
                None => Err(
                    diagnosis(
                        first_match(unit_table(), word, 0, UNIT_COUNT as int),
                        at,
                        allow_inconstant,
                    ),
                ),
                Some(unit) => Ok(
                    Term {
                        subtracting: direction_behind(text, position, subtracting),
                        whole: number.whole,
                        fraction: number.fraction,
                        unit,
                        next: spaces_end(
                            text,
                            at + name_end(unit_table()[unit].regex, word).unwrap(),
                        ),
                    },
                ),
            }
        },
    }
}

/// What a term does to the tally.
///
/// `supply` is the reference date, if there is one to be had. The first year or
/// month takes it; without it the reading waits, with the tally as it was before
/// the term. A year or month with a fraction other than zero is an error.
pub open spec fn apply(tally: Tally, term: Term, supply: Option<NaiveDateTime>) -> Step {
    if term.unit >= FIRST_FIXED_UNIT {
        match fixed_term(
            tally.nanos,
            term.subtracting,
            term.whole,
            term.fraction,
            unit_seconds(term.unit),
        ) {
            Err(error) => Step::Halt(Verdict::Done(Err(error))),
            Ok(nanos) => Step::Advance(
                Tally {
                    position: term.next,
                    subtracting: term.subtracting,
                    unit_cursor: term.unit + 1,
                    nanos,
                    dates: tally.dates,
                },
            ),
        }
    } else if decimal_value(term.fraction) != 0 {
        Step::Halt(Verdict::Done(Err(ParseError::InconstantUnitWithFraction)))
    } else if tally.dates is None && supply is None {
        Step::Halt(Verdict::Waiting(tally))
    } else {
        let (reference, base) = match tally.dates {
            Some(pair) => pair,
            None => (supply.unwrap(), supply.unwrap()),
        };
        match calendar_term(base, term.subtracting, term.whole, term.unit) {
            Err(error) => Step::Halt(Verdict::Done(Err(error))),
            Ok(moved) => Step::Advance(
                Tally {
                    position: term.next,
                    subtracting: term.subtracting,
                    unit_cursor: term.unit + 1,
                    nanos: tally.nanos,
                    dates: Some((reference, moved)),
                },
            ),
        }
    }
}

/// What the term that begins at `tally.position` does to the reading.
pub open spec fn term(
    text: Seq<u8>,
    tally: Tally,
    allow_inconstant: bool,
    supply: Option<NaiveDateTime>,
) -> Step {
    match term_at(text, tally.position, tally.subtracting, tally.unit_cursor, allow_inconstant) {
        Err(error) => Step::Halt(Verdict::Done(Err(error))),
        Ok(term) => apply(tally, term, supply),
    }
}

/// The reading of the terms from `tally.position` to the end of the text.
pub open spec fn run(
    text: Seq<u8>,
    tally: Tally,
    allow_inconstant: bool,
    supply: Option<NaiveDateTime>,
) -> Verdict
    decreases text.len() - tally.position,
    via run_decreases
{
    if tally.position >= text.len() {
        Verdict::Done(settled(tally.nanos, tally.dates))
    } else {
        match term(text, tally, allow_inconstant, supply) {
            Step::Halt(verdict) => verdict,
            Step::Advance(next) => run(text, next, allow_inconstant, supply),
        }
    }
}

#[via_fn]
proof fn run_decreases(
    text: Seq<u8>,
    tally: Tally,
    allow_inconstant: bool,
    supply: Option<NaiveDateTime>,
) {
    if tally.position < text.len() {
        lemma_term_advances(text, tally, allow_inconstant, supply);
    }
}

/// The reading of a phrase.
///
/// Spaces may stand before the first term, and a phrase of nothing else is
/// empty. `allow_inconstant` says whether years and months may be used, and
/// `supply` is the reference date for them, if there is one to be had.
pub open spec fn outcome(text: Seq<u8>, allow_inconstant: bool, supply: Option<NaiveDateTime>)
    -> Verdict {
    let start = spaces_end(text, 0);
    if start >= text.len() {
        Verdict::Done(Err(ParseError::Empty))
    } else {
        run(text, opening(start, allow_inconstant), allow_inconstant, supply)
    }
}

/// The minus signs at a position end at or behind it, within the text.
pub proof fn lemma_signs_end(text: Seq<u8>, from: int)
    requires
        0 <= from <= text.len(),
    ensures
        from <= signs_end(text, from) <= text.len(),
        !minus_at(text, signs_end(text, from)),
    decreases text.len() - from,
{
    if minus_at(text, from) {
        lemma_spaces_end(text, from + 1);
        lemma_signs_end(text, spaces_end(text, from + 1));
    }
}

/// A term that is read ends behind its start: it holds a digit or a point at
/// least. Its unit is none of those before the cursor.
pub proof fn lemma_term_at(
    text: Seq<u8>,
    position: int,
    subtracting: bool,
    unit_cursor: int,
    allow_inconstant: bool,
)
    requires
        position < text.len(),
    ensures
        term_at(text, position, subtracting, unit_cursor, allow_inconstant) matches Ok(term) ==> {
            &&& 0 <= position < term.next <= text.len()
            &&& unit_cursor <= term.unit < UNIT_COUNT
        },
{
    if position >= 0 {
        lemma_signs_end(text, position);
        let signed = signs_end(text, position);
        lemma_number_at(text, signed);
        if let Ok(number) = number_at(text, signed) {
            lemma_spaces_end(text, number.end);
            let at = spaces_end(text, number.end);
            lemma_word_end(text, at);
            let word = word_at(text, at);
            lemma_first_match(unit_table(), word, unit_cursor, UNIT_COUNT as int);
            if let Some(unit) = first_match(unit_table(), word, unit_cursor, UNIT_COUNT as int) {
                lemma_spaces_end(text, at + name_end(unit_table()[unit].regex, word).unwrap());
            }
        }
    }
}

/// A term that is read moves the reading forward in the phrase and in the table
/// of units.
pub proof fn lemma_term_advances(
    text: Seq<u8>,
    tally: Tally,
    allow_inconstant: bool,
    supply: Option<NaiveDateTime>,
)
    requires
        tally.position < text.len(),
    ensures
        term(text, tally, allow_inconstant, supply) matches Step::Advance(next) ==> {
            &&& 0 <= tally.position < next.position <= text.len()
            &&& tally.unit_cursor < next.unit_cursor <= UNIT_COUNT
        },
{
    lemma_term_at(text, tally.position, tally.subtracting, tally.unit_cursor, allow_inconstant);
}

/// The nanoseconds of a duration that was found, or the error.
pub open spec fn nanos_of(result: Result<TimeDelta, ParseError>) -> Result<int, ParseError> {
    match result {
        Ok(duration) => Ok(delta_nanos(duration)),
        Err(error) => Err(error),
    }
}

/// A reading at the start of a term: the cursor into the phrase, and what has
/// been read so far.
#[derive(Clone, Copy)]
pub struct Progress<'l> {
    bytes: ParseBytes<'l>,
    subtracting: bool,
    unit_cursor: usize,
    duration: TimeDelta,
    dates: Option<(NaiveDateTime, NaiveDateTime)>,
}

impl<'l> Progress<'l> {
    /// The duration read so far lies within the range of durations.
    #[verifier::type_invariant]
    spec fn in_range(&self) -> bool {
        delta_fits(delta_nanos(self.duration))
    }

    /// The phrase that is being read.
    pub closed spec fn text(&self) -> Seq<u8> {
        self.bytes.text()
    }

    /// What has been read of the phrase.
    pub closed spec fn tally(&self) -> Tally {
        Tally {
            position: self.bytes.consumed() as int,
            subtracting: self.subtracting,
            unit_cursor: self.unit_cursor as int,
            nanos: delta_nanos(self.duration),
            dates: self.dates,
        }
    }
}

/// How a reading ended.
pub enum Outcome<'l> {
    /// With a duration, or with an error.
    Finished(Result<TimeDelta, ParseError>),
    /// Before the first year or month, for want of a reference date. The reading
    /// can be taken up from there once the date is known.
    NeedsDate(Progress<'l>),
}

impl<'l> Outcome<'l> {
    /// How the reading ended, but for the phrase that a reading that waits
    /// holds, which [`Progress::text`] gives.
    pub open spec fn verdict(&self) -> Verdict {
        match *self {
            Outcome::Finished(result) => Verdict::Done(nanos_of(result)),
            Outcome::NeedsDate(progress) => Verdict::Waiting(progress.tally()),
        }
    }
}

/// What a term did to a reading.
pub enum Move<'l> {
    /// The term was read.
    Advance(Progress<'l>),
    /// The reading ended.
    Halt(Outcome<'l>),
}

impl<'l> Move<'l> {
    /// What the term did, but for the phrase that the reading holds, which
    /// [`Progress::text`] gives.
    pub open spec fn step(&self) -> Step {
        match *self {
            Move::Advance(progress) => Step::Advance(progress.tally()),
            Move::Halt(outcome) => Step::Halt(outcome.verdict()),
        }
    }
}

/// Consumes the minus signs that come next, each with the spaces behind it.
/// Each of them toggles the direction, which is `subtracting` before them; the
/// result is the direction behind them.
pub fn parse_signs(bytes: &mut ParseBytes, subtracting: bool) -> (direction: bool)
    ensures
        final(bytes).text() == old(bytes).text(),
        final(bytes).consumed() == signs_end(old(bytes).text(), old(bytes).consumed() as int),
        final(bytes).consumed() <= final(bytes).text().len(),
        direction == direction_behind(
            old(bytes).text(),
            old(bytes).consumed() as int,
            subtracting,
        ),
{
    let ghost text = bytes.text();
    let ghost start = bytes.consumed() as int;
    let mut direction = subtracting;
    loop
        invariant
            bytes.text() == text,
            signs_end(text, start) == signs_end(text, bytes.consumed() as int),
            direction_behind(text, start, subtracting) == direction_behind(
                text,
                bytes.consumed() as int,
                direction,
            ),
        ensures
            bytes.text() == text,
            bytes.consumed() <= text.len(),
            bytes.consumed() == signs_end(text, start),
            direction == direction_behind(text, start, subtracting),
        decreases text.len() - bytes.consumed(),
    {
        if !bytes.parse_minus() {
            break ;
        }
        direction = !direction;
        proof {
            lemma_spaces_end(text, bytes.consumed() as int);
        }
        bytes.skip_spaces();
    }
    direction
}

/// Consumes the name of a unit: the first of `units[from..]` whose name is found
/// in the word that comes next. Says which it was, or `None`, with nothing
/// consumed, where none of them is found.
pub fn parse_next_unit(bytes: &mut ParseBytes, units: &[TimeUnit], from: usize) -> (found: Option<
    usize,
>)
    ensures
        final(bytes).text() == old(bytes).text(),
        match first_match(units@, old(bytes).next_word(), from as int, units@.len() as int) {
            Some(unit) => {
                &&& found == Some(unit as usize)
                &&& from <= unit < units@.len()
                &&& final(bytes).consumed() == old(bytes).consumed() + name_end(
                    units@[unit].regex,
                    old(bytes).next_word(),
                ).unwrap()
            },
            None => found is None && final(bytes).consumed() == old(bytes).consumed(),
        },
{
    let ghost word = bytes.next_word();
    let mut index: usize = from;
    while index < units.len()
        invariant
            bytes.text() == old(bytes).text(),
            bytes.consumed() == old(bytes).consumed(),
            word == old(bytes).next_word(),
            from <= index,
            first_match(units@, word, from as int, units@.len() as int) == first_match(
                units@,
                word,
                index as int,
                units@.len() as int,
            ),
        decreases units@.len() - index,
    {
        if bytes.parse_regex(&units[index].regex) {
            return Some(index);
        }
        index += 1;
    }
    None
}

/// Adds a term in weeks, days, hours, minutes or seconds to a duration, or
/// subtracts it: `whole` units of `seconds` each, and `fraction` of one more,
/// rounded down to whole seconds. The duration has to lie within the range
/// that `chrono` documents for it, as does every duration that this crate makes.
pub fn add_fixed_term(
    duration: TimeDelta,
    subtracting: bool,
    whole: i64,
    fraction: &Fraction,
    seconds: i64,
) -> (total: Result<TimeDelta, ParseError>)
    requires
        0 <= seconds,
        delta_fits(delta_nanos(duration)),
    ensures
        total matches Ok(sum) ==> delta_fits(delta_nanos(sum)),
        nanos_of(total) == fixed_term(
            delta_nanos(duration),
            subtracting,
            whole as int,
            fraction@,
            seconds as int,
        ),
{
    let span = match whole.checked_mul(seconds) {
        Some(span) => span,
        None => {
            return Err(ParseError::NumberOutOfRange);
        },
    };
    let span = match TimeDelta::try_seconds(span) {
        Some(span) => span,
        None => {
            return Err(ParseError::NumberOutOfRange);
        },
    };
    let part: u64 = fraction.scale(seconds as u64);
    if part > MAX_DELTA_SECONDS as u64 {
        return Err(ParseError::NumberOutOfRange);
    }
    let part = match TimeDelta::try_seconds(part as i64) {
        Some(part) => part,
        None => {
            return Err(ParseError::NumberOutOfRange);
        },
    };
    let first = if subtracting {
        duration.checked_sub(&span)
    } else {
        duration.checked_add(&span)
    };
    let first = match first {
        Some(first) => first,
        None => {
            return Err(ParseError::NumberOutOfRange);
        },
    };
    let second = if subtracting {
        first.checked_sub(&part)
    } else {
        first.checked_add(&part)
    };
    match second {
        Some(second) => Ok(second),
        None => Err(ParseError::NumberOutOfRange),
    }
}

/// Moves a date by a term in years (`unit` 0) or months (`unit` 1): forward, or
/// back when subtracting.
pub fn move_date(base: NaiveDateTime, subtracting: bool, whole: i64, unit: usize) -> (moved:
    Result<NaiveDateTime, ParseError>)
    ensures
        moved == calendar_term(base, subtracting, whole as int, unit as int),
{
    if whole < 0 {
        return Err(ParseError::NumberOutOfRange);
    }
    let months: i64 = if unit == 0 {
        match whole.checked_mul(12) {
            Some(months) => months,
            None => {
                return Err(ParseError::DateOutOfRange);
            },
        }
    } else {
        whole
    };
    if months > u32::MAX as i64 {
        return Err(ParseError::DateOutOfRange);
    }
    let moved = if subtracting {
        sub_months(base, months as u32)
    } else {
        add_months(base, months as u32)
    };
    match moved {
        Some(date) => Ok(date),
        None => Err(ParseError::DateOutOfRange),
    }
}

/// The result once a phrase has been read: the duration, and with it the time
/// from the reference date to the date that the years and months gave. The
/// duration has to lie within the range that `chrono` documents for it.
pub fn settle(duration: TimeDelta, dates: Option<(NaiveDateTime, NaiveDateTime)>) -> (total:
    Result<TimeDelta, ParseError>)
    requires
        delta_fits(delta_nanos(duration)),
    ensures
        total matches Ok(sum) ==> delta_fits(delta_nanos(sum)),
        nanos_of(total) == settled(delta_nanos(duration), dates),
{
    match dates {
        Some((reference, moved)) => {
            let elapsed = moved.signed_duration_since(reference);
            match duration.checked_add(&elapsed) {
                Some(total) => Ok(total),
                None => Err(ParseError::NumberOutOfRange),
            }
        },
        None => Ok(duration),
    }
}

/// Reads the term at which `progress` stands.
pub fn parse_term<'l>(
    progress: Progress<'l>,
    units: &UnitTable,
    allow_inconstant: bool,
    supply: Option<NaiveDateTime>,
) -> (step: Move<'l>)
    ensures
        step.step() == term(progress.text(), progress.tally(), allow_inconstant, supply),
        step matches Move::Advance(next) ==> next.text() == progress.text() && next.tally().position
            <= next.text().len(),
        step matches Move::Halt(Outcome::NeedsDate(paused)) ==> paused == progress,
{
    proof {
        use_type_invariant(&progress);
    }
    let units = units.units();
    let mut bytes = progress.bytes;
    let subtracting = parse_signs(&mut bytes, progress.subtracting);
    let (whole, fraction) = match bytes.parse_number() {
        Ok(number) => number,
        Err(error) => {
            return Move::Halt(Outcome::Finished(Err(error)));
        },
    };
    bytes.skip_spaces();
    let unit = match parse_next_unit(&mut bytes, units, progress.unit_cursor) {
        Some(unit) => unit,
        None => {
            let error = ParseError::diagnose_unit_error(
                &bytes,
                units,
                units.len(),
                allow_inconstant,
            );
            return Move::Halt(Outcome::Finished(Err(error)));
        },
    };
    bytes.skip_spaces();
    if unit >= FIRST_FIXED_UNIT {
        match add_fixed_term(progress.duration, subtracting, whole, &fraction, units[unit].seconds) {
            Ok(duration) => Move::Advance(
                Progress { bytes, subtracting, unit_cursor: unit + 1, duration, dates: progress.dates },
            ),
            Err(error) => Move::Halt(Outcome::Finished(Err(error))),
        }
    } else if !fraction.is_zero() {
        Move::Halt(Outcome::Finished(Err(ParseError::InconstantUnitWithFraction)))
    } else {
        let (reference, base) = match progress.dates {
            Some(pair) => pair,
            None => match supply {
                Some(date) => (date, date),
                None => {
                    return Move::Halt(Outcome::NeedsDate(progress));
                },
            },
        };
        match move_date(base, subtracting, whole, unit) {
            Ok(moved) => Move::Advance(
                Progress {
                    bytes,
                    subtracting,
                    unit_cursor: unit + 1,
                    duration: progress.duration,
                    dates: Some((reference, moved)),
                },
            ),
            Err(error) => Move::Halt(Outcome::Finished(Err(error))),
        }
    }
}

/// Reads the terms from where `progress` stands to the end of the phrase.
pub fn parse_terms<'l>(
    progress: Progress<'l>,
    units: &UnitTable,
    allow_inconstant: bool,
    supply: Option<NaiveDateTime>,
) -> (outcome: Outcome<'l>)
    ensures
        outcome.verdict() == run(progress.text(), progress.tally(), allow_inconstant, supply),
        outcome matches Outcome::NeedsDate(paused) ==> paused.text() == progress.text(),
{
    let mut current = progress;
    while !current.bytes.is_empty()
        invariant
            current.text() == progress.text(),
            run(progress.text(), progress.tally(), allow_inconstant, supply) == run(
                progress.text(),
                current.tally(),
                allow_inconstant,
                supply,
            ),
        decreases current.text().len() - current.tally().position,
    {
        proof {
            lemma_term_advances(current.text(), current.tally(), allow_inconstant, supply);
        }
        match parse_term(current, units, allow_inconstant, supply) {
            Move::Advance(next) => {
                current = next;
            },
            Move::Halt(outcome) => {
                return outcome;
            },
        }
    }
    proof {
        use_type_invariant(&current);
    }
    Outcome::Finished(settle(current.duration, current.dates))
}

/// Reads a phrase.
///
/// `allow_inconstant` says whether the phrase may use years and months, whose
/// length depends on the calendar. `supply` is the reference date for them, if
/// it is known already. Where it is needed and not known, the reading stops
/// before the first year or month, and [`resume`] takes it up from there.
pub fn parse_interval<'l>(
    interval: &'l str,
    units: &UnitTable,
    allow_inconstant: bool,
    supply: Option<NaiveDateTime>,
) -> (result: Outcome<'l>)
    ensures
        result.verdict() == outcome(interval.spec_bytes(), allow_inconstant, supply),
        result matches Outcome::NeedsDate(paused) ==> paused.text() == interval.spec_bytes(),
{
    let mut bytes = ParseBytes::from_str(interval);
    bytes.skip_spaces();
    if bytes.is_empty() {
        return Outcome::Finished(Err(ParseError::Empty));
    }
    let unit_cursor: usize = if allow_inconstant {
        0
    } else {
        FIRST_FIXED_UNIT
    };
    let duration = match TimeDelta::try_seconds(0) {
        Some(zero) => zero,
        None => {
            return Outcome::Finished(Err(ParseError::NumberOutOfRange));
        },
    };
    let progress = Progress { bytes, subtracting: false, unit_cursor, duration, dates: None };
    parse_terms(progress, units, allow_inconstant, supply)
}

/// Takes up a reading that stopped for want of a reference date, with `date` as
/// the reference date.
pub fn resume<'l>(paused: Progress<'l>, units: &UnitTable, date: NaiveDateTime) -> (result:
    Result<TimeDelta, ParseError>)
    ensures
        run(paused.text(), paused.tally(), true, Some(date)) == Verdict::Done(nanos_of(result)),
{
    match parse_terms(paused, units, true, Some(date)) {
        Outcome::Finished(result) => result,
        Outcome::NeedsDate(_) => {
            proof {
                lemma_supplied_never_waits(paused.text(), paused.tally(), true, date);
            }
            Err(ParseError::InconstantUnitWithoutDate)
        },
    }
}

/// With a reference date to be had, a reading never waits for one.
pub proof fn lemma_supplied_never_waits(
    text: Seq<u8>,
    tally: Tally,
    allow_inconstant: bool,
    date: NaiveDateTime,
)
    ensures
        run(text, tally, allow_inconstant, Some(date)) is Done,
    decreases text.len() - tally.position,
{
    if tally.position < text.len() {
        lemma_term_advances(text, tally, allow_inconstant, Some(date));
        match term(text, tally, allow_inconstant, Some(date)) {
            Step::Halt(verdict) => {},
            Step::Advance(next) => {
                lemma_supplied_never_waits(text, next, allow_inconstant, date);
            },
        }
    }
}

/// A reading that may not use years and months never waits for a date: every
/// unit it accepts lies behind them in the table.
pub proof fn lemma_fixed_never_waits(
    text: Seq<u8>,
    tally: Tally,
    allow_inconstant: bool,
    supply: Option<NaiveDateTime>,
)
    requires
        tally.unit_cursor >= FIRST_FIXED_UNIT,
    ensures
        run(text, tally, allow_inconstant, supply) is Done,
    decreases text.len() - tally.position,
{
    if tally.position < text.len() {
        lemma_term_advances(text, tally, allow_inconstant, supply);
        lemma_term_at(text, tally.position, tally.subtracting, tally.unit_cursor, allow_inconstant);
        match term(text, tally, allow_inconstant, supply) {
            Step::Halt(verdict) => {},
            Step::Advance(next) => {
                lemma_fixed_never_waits(text, next, allow_inconstant, supply);
            },
        }
    }
}

/// A reference date handed over at the start gives what the same date gives
/// when it is handed over at the first year or month: a reading without a date
/// that ends has ended as it would have with one, and a reading that waits goes
/// on from there as the reading with the date does.
pub proof fn lemma_date_in_time(
    text: Seq<u8>,
    tally: Tally,
    allow_inconstant: bool,
    date: NaiveDateTime,
)
    ensures
        match run(text, tally, allow_inconstant, None) {
            Verdict::Done(value) => run(text, tally, allow_inconstant, Some(date))
                == Verdict::Done(value),
            Verdict::Waiting(paused) => run(text, tally, allow_inconstant, Some(date)) == run(
                text,
                paused,
                allow_inconstant,
                Some(date),
            ),
        },
    decreases text.len() - tally.position,
{
    if tally.position < text.len() {
        lemma_term_advances(text, tally, allow_inconstant, None);
        match term(text, tally, allow_inconstant, None) {
            Step::Halt(verdict) => {},
            Step::Advance(next) => {
                lemma_date_in_time(text, next, allow_inconstant, date);
            },
        }
    }
}

} // verus!
