//! Parses a short phrase such as `"1 year 3 months 15 minutes"` into a signed
//! [`chrono::TimeDelta`].
//!
//! The phrase is a list of terms, each a number followed by a unit, in the fixed
//! order years, months, weeks, days, hours, minutes, seconds. Every unit is
//! optional. Years and months have no fixed length, so they are resolved as an
//! offset from a reference date, which is a date and time in UTC.
//!
//! The functions [`simple`], [`with_date`] and [`with_lazy_date`] compile the
//! table of units on every call. To parse many phrases, keep a [`UnitTable`] and
//! call its methods of the same names.
//!
//! This crate does not read the clock. To count years and months from the
//! present, hand [`with_lazy_date`] a function that reads it.
//!
//! What a phrase means is defined by [`interval::outcome`]; what holds of every
//! phrase is proved in [`theorems`], [`spacing`], [`signs`] and [`suffix`].

pub mod calendar;
pub mod errors;
pub mod fraction;
pub mod interval;
pub mod parse_bytes;
pub mod signs;
pub mod spacing;
pub mod suffix;
pub mod theorems;
pub mod time_units;

pub use errors::ParseError;
pub use time_units::UnitTable;

use chrono::{NaiveDateTime, TimeDelta};
use interval::{
    lemma_date_in_time, lemma_fixed_never_waits, lemma_supplied_never_waits, nanos_of, opening,
    outcome, parse_interval, resume, Outcome, Verdict,
};
use parse_bytes::spaces_end;
use vstd::prelude::*;
use vstd::string::StringSliceAdditionalSpecFns;

verus! {

impl UnitTable {
    /// Parses a phrase like "15 days 12 hours". It may use weeks, days, hours,
    /// minutes and seconds, but no years or months.
    pub fn simple(&self, interval: &str) -> (result: Result<TimeDelta, ParseError>)
        ensures
            outcome(interval.spec_bytes(), false, None) == Verdict::Done(nanos_of(result)),
    {
        match parse_interval(interval, self, false, None) {
            Outcome::Finished(result) => result,
            Outcome::NeedsDate(_) => {
                proof {
                    let text = interval.spec_bytes();
                    lemma_fixed_never_waits(
                        text,
                        opening(spaces_end(text, 0), false),
                        false,
                        None,
                    );
                }
                Err(ParseError::InconstantUnitWithoutDate)
            },
        }
    }

    /// Parses a phrase like "1 year 15 days", with its years and months counted
    /// from `date`.
    pub fn with_date(&self, interval: &str, date: NaiveDateTime) -> (result: Result<
        TimeDelta,
        ParseError,
    >)
        ensures
            outcome(interval.spec_bytes(), true, Some(date)) == Verdict::Done(nanos_of(result)),
    {
        match parse_interval(interval, self, true, Some(date)) {
            Outcome::Finished(result) => result,
            Outcome::NeedsDate(_) => {
                proof {
                    let text = interval.spec_bytes();
                    lemma_supplied_never_waits(
                        text,
                        opening(spaces_end(text, 0), true),
                        true,
                        date,
                    );
                }
                Err(ParseError::InconstantUnitWithoutDate)
            },
        }
    }

    /// Parses a phrase like "1 year 15 days", with its years and months counted
    /// from the date that `get_date` gives.
    ///
    /// `get_date` is called once, when the first year or month is read, and not
    /// at all where the phrase has none.
    pub fn with_lazy_date<D>(&self, interval: &str, get_date: D) -> (result: Result<
        TimeDelta,
        ParseError,
    >) where D: FnOnce() -> NaiveDateTime
        requires
            call_requires(get_date, ()),
        ensures
            match outcome(interval.spec_bytes(), true, None) {
                Verdict::Done(value) => nanos_of(result) == value,
                Verdict::Waiting(_) => exists|date: NaiveDateTime|
                    call_ensures(get_date, (), date) && #[trigger] outcome(
                        interval.spec_bytes(),
                        true,
                        Some(date),
                    ) == Verdict::Done(nanos_of(result)),
            },
    {
        match parse_interval(interval, self, true, None) {
            Outcome::Finished(result) => result,
            Outcome::NeedsDate(paused) => {
                let date = get_date();
                let result = resume(paused, self, date);
                proof {
                    let text = interval.spec_bytes();
                    lemma_date_in_time(text, opening(spaces_end(text, 0), true), true, date);
                    assert(outcome(text, true, Some(date)) == Verdict::Done(nanos_of(result)));
                }
                result
            },
        }
    }
}

/// Parses a phrase like "15 days 12 hours". It may use weeks, days, hours, minutes
/// and seconds, but no years or months.
pub fn simple(interval: &str) -> (result: Result<TimeDelta, ParseError>)
    ensures
        outcome(interval.spec_bytes(), false, None) == Verdict::Done(nanos_of(result)),
{
    UnitTable::new().simple(interval)
}

/// Parses a phrase like "1 year 15 days", with its years and months counted from
/// `date`.
///
/// Where the date is not at hand, [`with_lazy_date`] spares getting it for a
/// phrase without years and months.
pub fn with_date(interval: &str, date: NaiveDateTime) -> (result: Result<TimeDelta, ParseError>)
    ensures
        outcome(interval.spec_bytes(), true, Some(date)) == Verdict::Done(nanos_of(result)),
{
    UnitTable::new().with_date(interval, date)
}

/// Parses a phrase like "1 year 15 days", with its years and months counted from
/// the date that `get_date` gives.
///
/// `get_date` is called once, when the first year or month is read, and not at
/// all where the phrase has none.
pub fn with_lazy_date<D>(interval: &str, get_date: D) -> (result: Result<TimeDelta, ParseError>)
    where D: FnOnce() -> NaiveDateTime
    requires
        call_requires(get_date, ()),
    ensures
        match outcome(interval.spec_bytes(), true, None) {
            Verdict::Done(value) => nanos_of(result) == value,
            Verdict::Waiting(_) => exists|date: NaiveDateTime|
                call_ensures(get_date, (), date) && #[trigger] outcome(
                    interval.spec_bytes(),
                    true,
                    Some(date),
                ) == Verdict::Done(nanos_of(result)),
        },
{
    UnitTable::new().with_lazy_date(interval, get_date)
}

} // verus!
