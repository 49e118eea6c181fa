//! An even number of minus signs before a number is as good as none: a phrase
//! without them is the same phrase.

use crate::errors::{first_match, lemma_first_match, ParseError};
use crate::interval::{
    apply, direction_behind, lemma_signs_end, lemma_term_at, opening, outcome, run, signs_end,
    term_at, Step, Tally, Term, Verdict,
};
use crate::parse_bytes::{
    digits_end, lemma_digits_end, lemma_number_at, lemma_spaces_end, lemma_word_end, minus_at,
    number_at, point_at, spaces_end, word_at, word_end, MINUS, SPACE,
};
use crate::spacing::is_number_byte;
use crate::suffix::{lemma_term_behind, same_behind, theorem_same_suffix};
use crate::theorems::theorem_signs_lead;
use crate::time_units::{name_end, unit_table, UNIT_COUNT};
use chrono::NaiveDateTime;
use vstd::prelude::*;

verus! {

/// The text without its bytes from `from` up to `to`.
pub open spec fn without(text: Seq<u8>, from: int, to: int) -> Seq<u8> {
    text.subrange(0, from) + text.subrange(to, text.len() as int)
}

/// The number of minus signs among the bytes from `from` up to `to`.
pub open spec fn minus_signs(text: Seq<u8>, from: int, to: int) -> nat
    decreases to - from,
{
    if from >= to {
        0
    } else if text[from] == MINUS {
        1 + minus_signs(text, from + 1, to)
    } else {
        minus_signs(text, from + 1, to)
    }
}

/// Whether the bytes from `from` up to `to` are minus signs and spaces only.
#[verifier::opaque]
pub open spec fn only_signs(text: Seq<u8>, from: int, to: int) -> bool {
    forall|i: int| from <= i < to ==> #[trigger] text[i] == MINUS || text[i] == SPACE
}

/// Whether the bytes from `from` up to `to` are minus signs before a number:
/// a minus sign first, then minus signs and spaces only, with a digit or a
/// decimal point behind them, and none before them.
pub open spec fn signs_before_number(text: Seq<u8>, from: int, to: int) -> bool {
    &&& 0 <= from < to < text.len()
    &&& text[from] == MINUS
    &&& only_signs(text, from, to)
    &&& is_number_byte(text[to])
    &&& from > 0 ==> !is_number_byte(text[from - 1])
}

/// Where a position at which a term, a number or a unit starts lies in the text
/// without the signs.
spec fn pulled(from: int, to: int, position: int) -> int {
    if position <= from {
        position
    } else {
        position - (to - from)
    }
}

/// The text without some bytes holds the bytes before them where they were,
/// and the bytes behind them further to the front.
proof fn lemma_without(text: Seq<u8>, from: int, to: int)
    requires
        0 <= from <= to <= text.len(),
    ensures
        without(text, from, to).len() == text.len() - (to - from),
        forall|i: int| 0 <= i < from ==> #[trigger] without(text, from, to)[i] == text[i],
        same_behind(text, without(text, from, to), to, from - to),
{
}

/// Spaces do not count as minus signs.
proof fn lemma_minus_signs_skip(text: Seq<u8>, from: int, middle: int, to: int)
    requires
        from <= middle <= to,
        forall|i: int| from <= i < middle ==> #[trigger] text[i] == SPACE,
    ensures
        minus_signs(text, from, to) == minus_signs(text, middle, to),
    decreases middle - from,
{
    if from < middle {
        lemma_minus_signs_skip(text, from + 1, middle, to);
    }
}

/// Within the signs, the signs end where the number starts, and the direction
/// goes by the number of minus signs that are left.
proof fn lemma_signs_within(text: Seq<u8>, from: int, to: int, at: int, subtracting: bool)
    requires
        signs_before_number(text, from, to),
        from <= at < to,
        text[at] == MINUS,
    ensures
        signs_end(text, at) == to,
        direction_behind(text, at, subtracting) == (subtracting != (minus_signs(text, at, to) % 2
            == 1)),
    decreases to - at,
{
    reveal(only_signs);
    lemma_spaces_end(text, at + 1);
    let next = spaces_end(text, at + 1);
    if next > to {
        assert(text[to] == SPACE);
    }
    lemma_minus_signs_skip(text, at + 1, next, to);
    assert(minus_signs(text, at, to) == 1 + minus_signs(text, next, to));
    assert(signs_end(text, at) == signs_end(text, next));
    assert(direction_behind(text, at, subtracting) == direction_behind(text, next, !subtracting));
    if next < to {
        assert(text[next] == MINUS || text[next] == SPACE);
        lemma_signs_within(text, from, to, next, !subtracting);
    } else {
        assert(!minus_at(text, to));
        assert(minus_signs(text, to, to) == 0);
    }
}

/// Spaces before the signs end where they ended, at the signs at the latest.
proof fn lemma_spaces_before(text: Seq<u8>, from: int, to: int, at: int)
    requires
        signs_before_number(text, from, to),
        0 <= at <= from,
    ensures
        spaces_end(text, at) <= from,
        spaces_end(without(text, from, to), at) == spaces_end(text, at),
    decreases from - at,
{
    lemma_without(text, from, to);
    if at < from {
        if text[at] == SPACE {
            lemma_spaces_before(text, from, to, at + 1);
        }
    } else {
        assert(without(text, from, to)[to + (from - to)] == text[to]);
    }
}

/// Digits before the signs end where they ended, before the signs.
proof fn lemma_digits_before(text: Seq<u8>, from: int, to: int, at: int)
    requires
        signs_before_number(text, from, to),
        0 <= at < from,
    ensures
        digits_end(text, at) < from,
        digits_end(without(text, from, to), at) == digits_end(text, at),
    decreases from - at,
{
    lemma_without(text, from, to);
    if text[at] >= 0x30 && text[at] <= 0x39 {
        if at + 1 < from {
            lemma_digits_before(text, from, to, at + 1);
        }
    }
}

/// A word before the signs ends where it ended, at the signs at the latest.
proof fn lemma_word_before(text: Seq<u8>, from: int, to: int, at: int)
    requires
        signs_before_number(text, from, to),
        0 <= at <= from,
    ensures
        word_end(text, at) <= from,
        word_end(without(text, from, to), at) == word_end(text, at),
        word_at(without(text, from, to), at) == word_at(text, at),
    decreases from - at,
{
    lemma_without(text, from, to);
    lemma_word_end(text, at);
    if at < from {
        lemma_word_before(text, from, to, at + 1);
    } else {
        assert(without(text, from, to)[to + (from - to)] == text[to]);
    }
    assert(word_at(without(text, from, to), at) =~= word_at(text, at));
}

/// The minus signs at a position before the signs that are taken out end
/// before them, or they run on through them to the number. The direction behind
/// them is the same without the signs that are taken out.
proof fn lemma_signs_before(text: Seq<u8>, from: int, to: int, at: int, subtracting: bool)
    requires
        signs_before_number(text, from, to),
        minus_signs(text, from, to) % 2 == 0,
        0 <= at <= from,
    ensures
        signs_end(text, at) < from || signs_end(text, at) == to,
        signs_end(without(text, from, to), at) == pulled(from, to, signs_end(text, at)),
        direction_behind(without(text, from, to), at, subtracting) == direction_behind(
            text,
            at,
            subtracting,
        ),
    decreases from - at,
{
    lemma_without(text, from, to);
    let short = without(text, from, to);
    if at == from {
        lemma_signs_within(text, from, to, from, subtracting);
        assert(short[to + (from - to)] == text[to]);
    } else if minus_at(text, at) {
        lemma_spaces_end(text, at + 1);
        lemma_spaces_before(text, from, to, at + 1);
        lemma_signs_before(text, from, to, spaces_end(text, at + 1), !subtracting);
    }
}

/// The number at a position before the signs is the same number without them,
/// and ends before them.
proof fn lemma_number_before(text: Seq<u8>, from: int, to: int, at: int)
    requires
        signs_before_number(text, from, to),
        0 <= at < from,
    ensures
        number_at(without(text, from, to), at) == number_at(text, at),
        number_at(text, at) matches Ok(number) ==> number.end < from,
{
    lemma_without(text, from, to);
    let short = without(text, from, to);
    lemma_digits_before(text, from, to, at);
    lemma_digits_end(text, at);
    let point = digits_end(text, at);
    assert(short.subrange(at, point) =~= text.subrange(at, point));
    if point_at(text, point) {
        lemma_digits_before(text, from, to, point + 1);
        lemma_digits_end(text, point + 1);
        let end = digits_end(text, point + 1);
        assert(short.subrange(point + 1, end) =~= text.subrange(point + 1, end));
    }
}

/// A term that stands before the signs altogether is the same term without
/// them.
proof fn lemma_term_before(
    text: Seq<u8>,
    from: int,
    to: int,
    position: int,
    subtracting: bool,
    unit_cursor: int,
    allow_inconstant: bool,
)
    requires
        signs_before_number(text, from, to),
        0 <= position < from,
        !minus_at(text, position),
    ensures
        term_at(without(text, from, to), position, subtracting, unit_cursor, allow_inconstant)
            == term_at(text, position, subtracting, unit_cursor, allow_inconstant),
        term_at(text, position, subtracting, unit_cursor, allow_inconstant) matches Ok(term)
            ==> term.next <= from,
{
    lemma_without(text, from, to);
    let short = without(text, from, to);
    assert(!minus_at(short, position));
    lemma_number_before(text, from, to, position);
    if let Ok(number) = number_at(text, position) {
        lemma_number_at(text, position);
        lemma_spaces_before(text, from, to, number.end);
        let start = spaces_end(text, number.end);
        lemma_spaces_end(text, number.end);
        lemma_word_before(text, from, to, start);
        lemma_word_end(text, start);
        let word = word_at(text, start);
        lemma_first_match(unit_table(), word, unit_cursor, UNIT_COUNT as int);
        if let Some(unit) = first_match(unit_table(), word, unit_cursor, UNIT_COUNT as int) {
            let length = name_end(unit_table()[unit].regex, word).unwrap();
            lemma_spaces_before(text, from, to, start + length);
        }
    }
}

/// The term at a position is the term at its place in the text without the
/// signs.
proof fn lemma_term_pulled(
    text: Seq<u8>,
    from: int,
    to: int,
    position: int,
    subtracting: bool,
    unit_cursor: int,
    allow_inconstant: bool,
)
    requires
        signs_before_number(text, from, to),
        minus_signs(text, from, to) % 2 == 0,
        0 <= position <= from || to <= position <= text.len(),
    ensures
        match term_at(text, position, subtracting, unit_cursor, allow_inconstant) {
            Ok(term) => (term.next <= from || to <= term.next) && term_at(
                without(text, from, to),
                pulled(from, to, position),
                subtracting,
                unit_cursor,
                allow_inconstant,
            ) == Ok::<Term, ParseError>(Term { next: pulled(from, to, term.next), ..term }),
            Err(_) => term_at(
                without(text, from, to),
                pulled(from, to, position),
                subtracting,
                unit_cursor,
                allow_inconstant,
            ) is Err,
        },
{
    lemma_without(text, from, to);
    let short = without(text, from, to);
    if position > from {
        if position < text.len() {
            lemma_term_at(text, position, subtracting, unit_cursor, allow_inconstant);
        }
        lemma_term_behind(
            text,
            short,
            to,
            from - to,
            position,
            subtracting,
            unit_cursor,
            allow_inconstant,
        );
    } else {
        lemma_signs_before(text, from, to, position, subtracting);
        lemma_signs_end(text, position);
        let signed = signs_end(text, position);
        let direction = direction_behind(text, position, subtracting);
        theorem_signs_lead(text, position, subtracting, unit_cursor, allow_inconstant);
        theorem_signs_lead(short, position, subtracting, unit_cursor, allow_inconstant);
        if signed == to {
            lemma_term_at(text, to, direction, unit_cursor, allow_inconstant);
            lemma_term_behind(
                text,
                short,
                to,
                from - to,
                to,
                direction,
                unit_cursor,
                allow_inconstant,
            );
        } else {
            lemma_term_before(text, from, to, signed, direction, unit_cursor, allow_inconstant);
        }
    }
}

/// The reading from a position is the reading from its place in the text
/// without the signs.
proof fn lemma_run_pulled(
    text: Seq<u8>,
    from: int,
    to: int,
    tally: Tally,
    allow_inconstant: bool,
    supply: Option<NaiveDateTime>,
)
    requires
        signs_before_number(text, from, to),
        minus_signs(text, from, to) % 2 == 0,
        0 <= tally.position <= from || to <= tally.position <= text.len(),
    ensures
        match run(text, tally, allow_inconstant, supply) {
            Verdict::Done(Ok(total)) => run(
                without(text, from, to),
                Tally { position: pulled(from, to, tally.position), ..tally },
                allow_inconstant,
                supply,
            ) == Verdict::Done(Ok(total)),
            Verdict::Done(Err(_)) => run(
                without(text, from, to),
                Tally { position: pulled(from, to, tally.position), ..tally },
                allow_inconstant,
                supply,
            ) matches Verdict::Done(Err(_)),
            Verdict::Waiting(_) => run(
                without(text, from, to),
                Tally { position: pulled(from, to, tally.position), ..tally },
                allow_inconstant,
                supply,
            ) is Waiting,
        },
    decreases text.len() - tally.position,
{
    lemma_without(text, from, to);
    let place = Tally { position: pulled(from, to, tally.position), ..tally };
    if tally.position > from {
        theorem_same_suffix(
            text,
            without(text, from, to),
            to,
            from - to,
            tally,
            allow_inconstant,
            supply,
        );
    } else {
        lemma_term_at(text, tally.position, tally.subtracting, tally.unit_cursor, allow_inconstant);
        lemma_term_pulled(
            text,
            from,
            to,
            tally.position,
            tally.subtracting,
            tally.unit_cursor,
            allow_inconstant,
        );
        if let Ok(read) = term_at(
            text,
            tally.position,
            tally.subtracting,
            tally.unit_cursor,
            allow_inconstant,
        ) {
            let short = Term { next: pulled(from, to, read.next), ..read };
            match apply(tally, read, supply) {
                Step::Advance(next) => {
                    assert(apply(place, short, supply) == Step::Advance(
                        Tally { position: pulled(from, to, next.position), ..next },
                    ));
                    lemma_run_pulled(text, from, to, next, allow_inconstant, supply);
                },
                Step::Halt(verdict) => {},
            }
        }
    }
}

/// A phrase without an even number of minus signs that stand before one of its
/// numbers is the same phrase: it is accepted with the same result, or it is
/// refused, or it waits for the reference date, as the phrase with the signs.
///
/// The signs are taken out with the spaces that follow them. Before them stands
/// the start of the phrase, or anything but a digit or a decimal point.
pub proof fn theorem_even_signs_vanish(
    text: Seq<u8>,
    from: int,
    to: int,
    allow_inconstant: bool,
    supply: Option<NaiveDateTime>,
)
    requires
        signs_before_number(text, from, to),
        minus_signs(text, from, to) % 2 == 0,
    ensures
        match outcome(text, allow_inconstant, supply) {
            Verdict::Done(Ok(total)) => outcome(
                without(text, from, to),
                allow_inconstant,
                supply,
            ) == Verdict::Done(Ok(total)),
            Verdict::Done(Err(_)) => outcome(
                without(text, from, to),
                allow_inconstant,
                supply,
            ) matches Verdict::Done(Err(_)),
            Verdict::Waiting(_) => outcome(without(text, from, to), allow_inconstant, supply)
                is Waiting,
        },
{
    lemma_without(text, from, to);
    lemma_spaces_end(text, 0);
    lemma_spaces_before(text, from, to, 0);
    let start = spaces_end(text, 0);
    lemma_run_pulled(text, from, to, opening(start, allow_inconstant), allow_inconstant, supply);
}

} // verus!
