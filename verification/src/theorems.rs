//! What holds of the reading of every phrase.

use crate::calendar::{months_added, months_subtracted, NANOS_PER_SECOND};
use crate::errors::{first_match, lemma_first_match_split, ParseError};
use crate::fraction::{decimal_value, scaled_floor};
use crate::interval::{
    apply, direction_behind, lemma_date_in_time, lemma_signs_end, lemma_term_at, opening, outcome,
    run, settled, signs_end, term, term_at, Step, Tally, Term, Verdict,
};
use crate::parse_bytes::{digits_end, lemma_spaces_end, minus_at, number_at, spaces_end, word_at};
use crate::time_units::{unit_seconds, unit_table, FIRST_FIXED_UNIT, UNIT_COUNT};
use chrono::NaiveDateTime;
use vstd::prelude::*;

verus! {

/// The terms of a phrase from `position` on, up to the end of the phrase or to
/// the first term that cannot be read.
pub open spec fn terms(
    text: Seq<u8>,
    position: int,
    subtracting: bool,
    unit_cursor: int,
    allow_inconstant: bool,
) -> Seq<Term>
    decreases text.len() - position,
    via terms_decreases
{
    if position >= text.len() {
        Seq::empty()
    } else {
        match term_at(text, position, subtracting, unit_cursor, allow_inconstant) {
            Err(_) => Seq::empty(),
            Ok(term) => seq![term] + terms(
                text,
                term.next,
                term.subtracting,
                term.unit + 1,
                allow_inconstant,
            ),
        }
    }
}

#[via_fn]
proof fn terms_decreases(
    text: Seq<u8>,
    position: int,
    subtracting: bool,
    unit_cursor: int,
    allow_inconstant: bool,
) {
    if position < text.len() {
        lemma_term_at(text, position, subtracting, unit_cursor, allow_inconstant);
    }
}

/// The seconds that a term in weeks, days, hours, minutes or seconds is worth:
/// its whole units and the fraction of one more, rounded down, with a minus sign
/// where the term is subtracted.
pub open spec fn signed_seconds(term: Term) -> int {
    let seconds = term.whole * unit_seconds(term.unit) + scaled_floor(
        term.fraction,
        unit_seconds(term.unit),
    );
    if term.subtracting {
        -seconds
    } else {
        seconds
    }
}

/// The sum of what the terms are worth.
pub open spec fn signed_sum(terms: Seq<Term>) -> int
    decreases terms.len(),
{
    if terms.len() == 0 {
        0
    } else {
        signed_seconds(terms[0]) + signed_sum(terms.subrange(1, terms.len() as int))
    }
}

/// Whether none of the terms is in years or months.
pub open spec fn all_fixed(terms: Seq<Term>) -> bool {
    forall|i: int| 0 <= i < terms.len() ==> (#[trigger] terms[i]).unit >= FIRST_FIXED_UNIT
}

/// The position behind the last of the terms that were read from `position` on.
pub open spec fn terms_end(terms: Seq<Term>, position: int) -> int {
    if terms.len() == 0 {
        position
    } else {
        terms.last().next
    }
}

/// An accepted phrase is made of its terms: they follow one another to the end
/// of the phrase.
pub proof fn theorem_accepted_to_the_end(
    text: Seq<u8>,
    tally: Tally,
    allow_inconstant: bool,
    supply: Option<NaiveDateTime>,
)
    ensures
        run(text, tally, allow_inconstant, supply) matches Verdict::Done(Ok(_)) ==> terms_end(
            terms(text, tally.position, tally.subtracting, tally.unit_cursor, allow_inconstant),
            tally.position,
        ) >= text.len(),
    decreases text.len() - tally.position,
{
    if tally.position < text.len() {
        lemma_term_at(text, tally.position, tally.subtracting, tally.unit_cursor, allow_inconstant);
        if let Ok(term) = term_at(
            text,
            tally.position,
            tally.subtracting,
            tally.unit_cursor,
            allow_inconstant,
        ) {
            if let Step::Advance(next) = apply(tally, term, supply) {
                theorem_accepted_to_the_end(text, next, allow_inconstant, supply);
                let rest = terms(text, term.next, term.subtracting, term.unit + 1, allow_inconstant);
                let read = seq![term] + rest;
                if rest.len() > 0 {
                    assert(read.last() == rest.last());
                }
            }
        }
    }
}

/// The units of a phrase descend: each term uses a unit of the table behind the
/// unit of the term before it, and none before the cursor. So no unit occurs
/// twice, and none follows a smaller one.
pub proof fn theorem_units_descend(
    text: Seq<u8>,
    position: int,
    subtracting: bool,
    unit_cursor: int,
    allow_inconstant: bool,
)
    ensures
        ({
            let read = terms(text, position, subtracting, unit_cursor, allow_inconstant);
            &&& forall|i: int|
                0 <= i < read.len() ==> unit_cursor <= (#[trigger] read[i]).unit < UNIT_COUNT
            &&& forall|i: int, j: int|
                0 <= i < j < read.len() ==> (#[trigger] read[i]).unit < (#[trigger] read[j]).unit
        }),
    decreases text.len() - position,
{
    if position < text.len() {
        lemma_term_at(text, position, subtracting, unit_cursor, allow_inconstant);
        if let Ok(term) = term_at(text, position, subtracting, unit_cursor, allow_inconstant) {
            theorem_units_descend(
                text,
                term.next,
                term.subtracting,
                term.unit + 1,
                allow_inconstant,
            );
            let rest = terms(text, term.next, term.subtracting, term.unit + 1, allow_inconstant);
            let read = terms(text, position, subtracting, unit_cursor, allow_inconstant);
            assert(read == seq![term] + rest);
            assert forall|i: int| 0 <= i < read.len() implies unit_cursor <= (
            #[trigger] read[i]).unit < UNIT_COUNT by {
                if i > 0 {
                    assert(read[i] == rest[i - 1]);
                }
            }
            assert forall|i: int, j: int| 0 <= i < j < read.len() implies (#[trigger] read[i]).unit
                < (#[trigger] read[j]).unit by {
                assert(read[j] == rest[j - 1]);
                if i > 0 {
                    assert(read[i] == rest[i - 1]);
                }
            }
        }
    }
}

/// A unit that was passed is out of sequence: where no unit from the cursor on
/// stands behind a number, but one before the cursor does, the term is refused
/// with `UnitOutOfSequence` at the position of the unit. The one exception is a
/// year or month where none is allowed, which is refused as such.
pub proof fn theorem_passed_unit_refused(
    text: Seq<u8>,
    position: int,
    subtracting: bool,
    unit_cursor: int,
    allow_inconstant: bool,
)
    requires
        0 <= unit_cursor <= UNIT_COUNT,
        number_at(text, signs_end(text, position)) is Ok,
    ensures
        ({
            let number = number_at(text, signs_end(text, position)).unwrap();
            let at = spaces_end(text, number.end);
            let word = word_at(text, at);
            let passed = first_match(unit_table(), word, 0, unit_cursor);
            let read = term_at(text, position, subtracting, unit_cursor, allow_inconstant);
            first_match(unit_table(), word, unit_cursor, UNIT_COUNT as int) is None
                && passed is Some ==> read == Err::<Term, ParseError>(
                if passed.unwrap() < FIRST_FIXED_UNIT && !allow_inconstant {
                    ParseError::InconstantUnitWithoutDate
                } else {
                    ParseError::UnitOutOfSequence(at as usize)
                },
            )
        }),
{
    let number = number_at(text, signs_end(text, position)).unwrap();
    let at = spaces_end(text, number.end);
    lemma_first_match_split(unit_table(), word_at(text, at), 0, unit_cursor, UNIT_COUNT as int);
}

/// The number of minus signs that stand at `from`, each with the spaces that
/// follow it.
pub open spec fn minus_count(text: Seq<u8>, from: int) -> nat
    decreases text.len() - from,
    via minus_count_decreases
{
    if minus_at(text, from) {
        1 + minus_count(text, spaces_end(text, from + 1))
    } else {
        0
    }
}

#[via_fn]
proof fn minus_count_decreases(text: Seq<u8>, from: int) {
    if minus_at(text, from) {
        lemma_spaces_end(text, from + 1);
    }
}

/// Minus signs cancel in pairs: an even number of them leaves the direction as
/// it was, as no sign does, and an odd number turns it round, as one sign does.
pub proof fn theorem_signs_cancel(text: Seq<u8>, from: int, subtracting: bool)
    requires
        0 <= from <= text.len(),
    ensures
        direction_behind(text, from, subtracting) == if minus_count(text, from) % 2 == 0 {
            subtracting
        } else {
            !subtracting
        },
    decreases text.len() - from,
{
    if minus_at(text, from) {
        lemma_spaces_end(text, from + 1);
        theorem_signs_cancel(text, spaces_end(text, from + 1), !subtracting);
    }
}

/// A term behind minus signs is the term that stands behind them, read in the
/// direction that the signs leave.
pub proof fn theorem_signs_lead(
    text: Seq<u8>,
    position: int,
    subtracting: bool,
    unit_cursor: int,
    allow_inconstant: bool,
)
    requires
        0 <= position <= text.len(),
    ensures
        term_at(text, position, subtracting, unit_cursor, allow_inconstant) == term_at(
            text,
            signs_end(text, position),
            direction_behind(text, position, subtracting),
            unit_cursor,
            allow_inconstant,
        ),
{
    lemma_signs_end(text, position);
    let behind = signs_end(text, position);
    assert(signs_end(text, behind) == behind);
}

/// The result of a phrase in weeks, days, hours, minutes and seconds is the sum
/// of what its terms are worth, each with its sign.
///
/// Stated of a reading that has got to `tally` without a year or month: if the
/// phrase is accepted and no term from there on is in years or months, the
/// result is the running sum of the tally and the worth of those terms.
pub proof fn theorem_sum_of_terms(
    text: Seq<u8>,
    tally: Tally,
    allow_inconstant: bool,
    supply: Option<NaiveDateTime>,
)
    requires
        tally.dates is None,
    ensures
        ({
            let read = terms(
                text,
                tally.position,
                tally.subtracting,
                tally.unit_cursor,
                allow_inconstant,
            );
            all_fixed(read) ==> (run(text, tally, allow_inconstant, supply) matches Verdict::Done(
                Ok(total),
            ) ==> total == tally.nanos + signed_sum(read) * NANOS_PER_SECOND)
        }),
    decreases text.len() - tally.position,
{
    let read = terms(text, tally.position, tally.subtracting, tally.unit_cursor, allow_inconstant);
    if tally.position < text.len() {
        lemma_term_at(text, tally.position, tally.subtracting, tally.unit_cursor, allow_inconstant);
        if let Ok(term) = term_at(
            text,
            tally.position,
            tally.subtracting,
            tally.unit_cursor,
            allow_inconstant,
        ) {
            let rest = terms(text, term.next, term.subtracting, term.unit + 1, allow_inconstant);
            assert(read == seq![term] + rest);
            assert(read[0] == term);
            assert(read.subrange(1, read.len() as int) =~= rest);
            if all_fixed(read) {
                assert forall|i: int| 0 <= i < rest.len() implies (#[trigger] rest[i]).unit
                    >= FIRST_FIXED_UNIT by {
                    assert(rest[i] == read[i + 1]);
                }
                if let Step::Advance(next) = apply(tally, term, supply) {
                    theorem_sum_of_terms(text, next, allow_inconstant, supply);
                }
            }
        }
    }
}

/// The result of a phrase that may not use years and months is the sum of what
/// its terms are worth, each with its sign.
pub proof fn theorem_simple_sum(text: Seq<u8>)
    ensures
        outcome(text, false, None) matches Verdict::Done(Ok(total)) ==> total == signed_sum(
            terms(text, spaces_end(text, 0), false, FIRST_FIXED_UNIT as int, false),
        ) * NANOS_PER_SECOND,
{
    let start = spaces_end(text, 0);
    theorem_units_descend(text, start, false, FIRST_FIXED_UNIT as int, false);
    theorem_sum_of_terms(text, opening(start, false), false, None);
}

/// The reference date is taken once: the first year or month takes the date
/// that is supplied, and no later term changes it.
pub proof fn theorem_reference_is_kept(tally: Tally, term: Term, supply: Option<NaiveDateTime>)
    ensures
        apply(tally, term, supply) matches Step::Advance(next) ==> match tally.dates {
            Some((reference, _)) => next.dates matches Some((kept, _)) && kept == reference,
            None => next.dates matches Some((taken, _)) ==> supply == Some(taken),
        },
{
}

/// A reference date that is fetched when the first year or month is read gives
/// what the same date gives when it is handed over with the phrase.
///
/// `eager` is the result with the date handed over; `lazy` is the result of the
/// reading that waits for the date, or that ends without one.
pub proof fn theorem_lazy_as_eager(
    text: Seq<u8>,
    date: NaiveDateTime,
    eager: Result<int, ParseError>,
    lazy: Result<int, ParseError>,
)
    requires
        outcome(text, true, Some(date)) == Verdict::Done(eager),
        match outcome(text, true, None) {
            Verdict::Done(value) => lazy == value,
            Verdict::Waiting(paused) => run(text, paused, true, Some(date)) == Verdict::Done(lazy),
        },
    ensures
        eager == lazy,
{
    lemma_date_in_time(text, opening(spaces_end(text, 0), true), true, date);
}

/// One year forward and twelve months back come to nothing, wherever twelve
/// months forward and twelve months back lead from the reference date to the
/// reference date again.
///
/// Stated of a phrase of two terms, which reads as one year, added, and twelve
/// months, subtracted: its result is a duration of zero.
pub proof fn theorem_year_and_twelve_months(text: Seq<u8>, reference: NaiveDateTime)
    requires
        term_at(text, spaces_end(text, 0), false, 0, true) matches Ok(year) && {
            &&& year.unit == 0
            &&& year.whole == 1
            &&& decimal_value(year.fraction) == 0
            &&& !year.subtracting
            &&& term_at(text, year.next, false, 1, true) matches Ok(months) && {
                &&& months.unit == 1
                &&& months.whole == 12
                &&& decimal_value(months.fraction) == 0
                &&& months.subtracting
                &&& months.next >= text.len()
            }
        },
        months_added(reference, 12) matches Some(moved) && months_subtracted(moved, 12) == Some(
            reference,
        ),
    ensures
        outcome(text, true, Some(reference)) == Verdict::Done(Ok(0)),
{
    let start = spaces_end(text, 0);
    let year = term_at(text, start, false, 0, true).unwrap();
    let months = term_at(text, year.next, false, 1, true).unwrap();
    lemma_spaces_end(text, 0);
    lemma_no_term_at_the_end(text, start, false, 0, true);
    lemma_term_at(text, start, false, 0, true);
    lemma_no_term_at_the_end(text, year.next, false, 1, true);
    let first = opening(start, true);
    let second = apply(first, year, Some(reference))->Advance_0;
    let last = apply(second, months, Some(reference))->Advance_0;
    assert(term(text, first, true, Some(reference)) == Step::Advance(second));
    assert(term(text, second, true, Some(reference)) == Step::Advance(last));
    assert(run(text, last, true, Some(reference)) == Verdict::Done(
        settled(last.nanos, last.dates),
    ));
    assert(run(text, second, true, Some(reference)) == run(text, last, true, Some(reference)));
}

/// No term stands at the end of a text.
proof fn lemma_no_term_at_the_end(
    text: Seq<u8>,
    position: int,
    subtracting: bool,
    unit_cursor: int,
    allow_inconstant: bool,
)
    ensures
        position >= text.len() ==> term_at(
            text,
            position,
            subtracting,
            unit_cursor,
            allow_inconstant,
        ) is Err,
{
    if position >= text.len() {
        assert(signs_end(text, position) == position);
        assert(digits_end(text, position) == position);
    }
}

} // verus!
