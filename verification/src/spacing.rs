//! Spaces between the tokens of a phrase do not matter: one more space where
//! neither a number nor a word is split leaves a phrase as it was.

use crate::errors::{first_match, lemma_first_match, ParseError};
use crate::fraction::is_digit;
use crate::interval::{
    apply, direction_behind, lemma_signs_end, lemma_term_at, opening, outcome, run, signs_end,
    term_at, Step, Tally, Term, Verdict,
};
use crate::parse_bytes::{
    digits_end, is_break, lemma_digits_end, lemma_number_at, lemma_spaces_end, lemma_word_end,
    minus_at, number_at, point_at, spaces_end, word_at, word_end, POINT, SPACE,
};
use crate::suffix::{lemma_digits_behind, lemma_word_behind};
use crate::time_units::{name_end, unit_table, UNIT_COUNT};
use chrono::NaiveDateTime;
use vstd::prelude::*;

verus! {

/// The text with one more space at the position `at`.
pub open spec fn with_space(text: Seq<u8>, at: int) -> Seq<u8> {
    text.subrange(0, at) + seq![SPACE] + text.subrange(at, text.len() as int)
}

/// Whether a byte may stand in a number: a digit or the decimal point.
pub open spec fn is_number_byte(byte: u8) -> bool {
    is_digit(byte) || byte == POINT
}

/// Whether the position `at` lies between two tokens: at either end of the
/// text, or where the bytes before and behind it are not two bytes of a number
/// and not two bytes of a word.
pub open spec fn between_tokens(text: Seq<u8>, at: int) -> bool {
    &&& 0 <= at <= text.len()
    &&& 0 < at < text.len() ==> {
        &&& !(is_number_byte(text[at - 1]) && is_number_byte(text[at]))
        &&& !(!is_break(text[at - 1]) && !is_break(text[at]))
    }
}

/// Where a position of the text lies in the text with one more space at `at`,
/// for a position at which a token starts.
pub open spec fn moved(at: int, position: int) -> int {
    if position < at {
        position
    } else {
        position + 1
    }
}

/// Whether `behind` is, in the text with one more space at `at`, the place of
/// `before` in the text. The position `at` itself has two such places, one on
/// each side of the space.
spec fn same_place(at: int, before: int, behind: int) -> bool {
    ||| before < at && behind == before
    ||| before > at && behind == before + 1
    ||| before == at && (behind == at || behind == at + 1)
}

proof fn lemma_with_space(text: Seq<u8>, at: int)
    requires
        0 <= at <= text.len(),
    ensures
        with_space(text, at).len() == text.len() + 1,
        with_space(text, at)[at] == SPACE,
        forall|i: int| 0 <= i < at ==> #[trigger] with_space(text, at)[i] == text[i],
        forall|i: int| at < i <= text.len() ==> #[trigger] with_space(text, at)[i] == text[i - 1],
{
}

/// Skipping spaces leads to the same place in both texts, from either side of
/// the new space.
proof fn lemma_spaces_moved(text: Seq<u8>, at: int, before: int, behind: int)
    requires
        0 <= at <= text.len(),
        0 <= before <= text.len(),
        same_place(at, before, behind),
    ensures
        spaces_end(with_space(text, at), behind) == moved(at, spaces_end(text, before)),
    decreases text.len() - before, at + 1 - behind,
{
    lemma_with_space(text, at);
    lemma_spaces_end(text, before);
    if before < at {
        if text[before] == SPACE {
            lemma_spaces_moved(text, at, before + 1, before + 1);
        }
    } else if behind == before {
        lemma_spaces_moved(text, at, before, before + 1);
    } else if before < text.len() && text[before] == SPACE {
        lemma_spaces_moved(text, at, before + 1, before + 2);
    }
}

/// Digits before the new space end where they ended, at the space at the latest.
proof fn lemma_digits_before(text: Seq<u8>, at: int, from: int)
    requires
        between_tokens(text, at),
        0 <= from <= at,
        from == at ==> at > 0 && is_number_byte(text[at - 1]),
    ensures
        digits_end(text, from) <= at,
        digits_end(with_space(text, at), from) == digits_end(text, from),
    decreases at - from,
{
    lemma_with_space(text, at);
    if from < at && is_digit(text[from]) {
        lemma_digits_before(text, at, from + 1);
    }
}

/// A word before the new space ends where it ended, at the space at the latest.
proof fn lemma_word_before(text: Seq<u8>, at: int, from: int)
    requires
        between_tokens(text, at),
        0 <= from <= at,
        from == at ==> at > 0 && !is_break(text[at - 1]),
    ensures
        word_end(text, from) <= at,
        word_end(with_space(text, at), from) == word_end(text, from),
    decreases at - from,
{
    lemma_with_space(text, at);
    if from < at && !is_break(text[from]) {
        lemma_word_before(text, at, from + 1);
    }
}

/// The word at a position is the word at its place in the wider text.
proof fn lemma_word_moved(text: Seq<u8>, at: int, from: int)
    requires
        between_tokens(text, at),
        0 <= from <= text.len(),
    ensures
        word_at(with_space(text, at), moved(at, from)) == word_at(text, from),
        from < at ==> word_end(text, from) <= at,
{
    let wide = with_space(text, at);
    lemma_with_space(text, at);
    lemma_word_end(text, from);
    if from < at {
        lemma_word_before(text, at, from);
        assert(word_at(wide, from) =~= word_at(text, from));
    } else {
        lemma_word_behind(text, wide, at, 1, from);
        assert(word_at(wide, from + 1) =~= word_at(text, from));
    }
}

/// The number at a position is the number at its place in the wider text.
proof fn lemma_number_moved(text: Seq<u8>, at: int, from: int)
    requires
        between_tokens(text, at),
        0 <= from <= text.len(),
    ensures
        match number_at(text, from) {
            Ok(number) => number_at(with_space(text, at), moved(at, from)) matches Ok(wider)
                && wider.whole == number.whole && wider.fraction == number.fraction && same_place(
                at,
                number.end,
                wider.end,
            ),
            Err(_) => number_at(with_space(text, at), moved(at, from)) is Err,
        },
{
    let wide = with_space(text, at);
    lemma_with_space(text, at);
    lemma_digits_end(text, from);
    let point = digits_end(text, from);
    if from < at {
        lemma_digits_before(text, at, from);
        assert(wide.subrange(from, point) =~= text.subrange(from, point));
        if point < at {
            if point_at(text, point) {
                lemma_digits_end(text, point + 1);
                lemma_digits_before(text, at, point + 1);
                let end = digits_end(text, point + 1);
                assert(wide.subrange(point + 1, end) =~= text.subrange(point + 1, end));
            }
        }
    } else {
        lemma_digits_behind(text, wide, at, 1, from);
        assert(wide.subrange(from + 1, point + 1) =~= text.subrange(from, point));
        if point_at(text, point) {
            lemma_digits_end(text, point + 1);
            lemma_digits_behind(text, wide, at, 1, point + 1);
            let end = digits_end(text, point + 1);
            assert(wide.subrange(point + 2, end + 1) =~= text.subrange(point + 1, end));
        }
    }
}

/// The minus signs at a position are the minus signs at its place in the wider
/// text.
proof fn lemma_signs_moved(text: Seq<u8>, at: int, from: int, subtracting: bool)
    requires
        0 <= at <= text.len(),
        0 <= from <= text.len(),
    ensures
        signs_end(with_space(text, at), moved(at, from)) == moved(at, signs_end(text, from)),
        direction_behind(with_space(text, at), moved(at, from), subtracting) == direction_behind(
            text,
            from,
            subtracting,
        ),
    decreases text.len() - from,
{
    lemma_with_space(text, at);
    if minus_at(text, from) {
        lemma_spaces_end(text, from + 1);
        lemma_spaces_moved(text, at, from + 1, moved(at, from) + 1);
        lemma_signs_moved(text, at, spaces_end(text, from + 1), !subtracting);
    }
}

/// The term at a position is the term at its place in the wider text.
proof fn lemma_term_moved(
    text: Seq<u8>,
    at: int,
    position: int,
    subtracting: bool,
    unit_cursor: int,
    allow_inconstant: bool,
)
    requires
        between_tokens(text, at),
        0 <= position <= text.len(),
    ensures
        match term_at(text, position, subtracting, unit_cursor, allow_inconstant) {
            Ok(term) => term_at(
                with_space(text, at),
                moved(at, position),
                subtracting,
                unit_cursor,
                allow_inconstant,
            ) == Ok::<Term, ParseError>(Term { next: moved(at, term.next), ..term }),
            Err(_) => term_at(
                with_space(text, at),
                moved(at, position),
                subtracting,
                unit_cursor,
                allow_inconstant,
            ) is Err,
        },
{
    let wide = with_space(text, at);
    lemma_with_space(text, at);
    lemma_signs_end(text, position);
    lemma_signs_moved(text, at, position, subtracting);
    let signed = signs_end(text, position);
    lemma_number_at(text, signed);
    lemma_number_moved(text, at, signed);
    if let Ok(number) = number_at(text, signed) {
        let wider = number_at(wide, moved(at, signed)).unwrap();
        lemma_spaces_end(text, number.end);
        lemma_spaces_moved(text, at, number.end, wider.end);
        let start = spaces_end(text, number.end);
        lemma_word_end(text, start);
        lemma_word_moved(text, at, start);
        let word = word_at(text, start);
        lemma_first_match(unit_table(), word, unit_cursor, UNIT_COUNT as int);
        if let Some(unit) = first_match(unit_table(), word, unit_cursor, UNIT_COUNT as int) {
            let length = name_end(unit_table()[unit].regex, word).unwrap();
            lemma_spaces_moved(text, at, start + length, moved(at, start) + length);
        }
    }
}

/// The reading from a position is the reading from its place in the wider
/// text: it is accepted with the same result, or refused, or waits, alike.
proof fn lemma_run_moved(
    text: Seq<u8>,
    at: int,
    tally: Tally,
    allow_inconstant: bool,
    supply: Option<NaiveDateTime>,
)
    requires
        between_tokens(text, at),
        0 <= tally.position <= text.len(),
    ensures
        match run(text, tally, allow_inconstant, supply) {
            Verdict::Done(Ok(total)) => run(
                with_space(text, at),
                Tally { position: moved(at, tally.position), ..tally },
                allow_inconstant,
                supply,
            ) == Verdict::Done(Ok(total)),
            Verdict::Done(Err(_)) => run(
                with_space(text, at),
                Tally { position: moved(at, tally.position), ..tally },
                allow_inconstant,
                supply,
            ) matches Verdict::Done(Err(_)),
            Verdict::Waiting(_) => run(
                with_space(text, at),
                Tally { position: moved(at, tally.position), ..tally },
                allow_inconstant,
                supply,
            ) is Waiting,
        },
    decreases text.len() - tally.position,
{
    let place = Tally { position: moved(at, tally.position), ..tally };
    lemma_with_space(text, at);
    if tally.position < text.len() {
        lemma_term_at(text, tally.position, tally.subtracting, tally.unit_cursor, allow_inconstant);
        lemma_term_moved(
            text,
            at,
            tally.position,
            tally.subtracting,
            tally.unit_cursor,
            allow_inconstant,
        );
        if let Ok(read) = term_at(
            text,
            tally.position,
            tally.subtracting,
            tally.unit_cursor,
            allow_inconstant,
        ) {
            let wider = Term { next: moved(at, read.next), ..read };
            match apply(tally, read, supply) {
                Step::Advance(next) => {
                    assert(apply(place, wider, supply) == Step::Advance(
                        Tally { position: moved(at, next.position), ..next },
                    ));
                    lemma_run_moved(text, at, next, allow_inconstant, supply);
                },
                Step::Halt(verdict) => {},
            }
        }
    }
}

/// A phrase with one more space between two of its tokens is the same phrase:
/// it is accepted with the same result, or it is refused, or it waits for the
/// reference date, as the phrase itself.
///
/// The space may stand anywhere but within a number or within a word.
pub proof fn theorem_space_between_tokens(
    text: Seq<u8>,
    at: int,
    allow_inconstant: bool,
    supply: Option<NaiveDateTime>,
)
    requires
        between_tokens(text, at),
    ensures
        match outcome(text, allow_inconstant, supply) {
            Verdict::Done(Ok(total)) => outcome(with_space(text, at), allow_inconstant, supply)
                == Verdict::Done(Ok(total)),
            Verdict::Done(Err(_)) => outcome(
                with_space(text, at),
                allow_inconstant,
                supply,
            ) matches Verdict::Done(Err(_)),
            Verdict::Waiting(_) => outcome(with_space(text, at), allow_inconstant, supply)
                is Waiting,
        },
{
    lemma_with_space(text, at);
    lemma_spaces_end(text, 0);
    lemma_spaces_moved(text, at, 0, 0);
    let start = spaces_end(text, 0);
    if start < text.len() {
        lemma_run_moved(text, at, opening(start, allow_inconstant), allow_inconstant, supply);
    }
}

/// The text with `count` more spaces at the position `at`.
pub open spec fn with_spaces(text: Seq<u8>, at: int, count: nat) -> Seq<u8>
    decreases count,
{
    if count == 0 {
        text
    } else {
        with_space(with_spaces(text, at, (count - 1) as nat), at)
    }
}

/// A phrase with any number of spaces more between two of its tokens is the
/// same phrase: it is accepted with the same result, or it is refused, or it
/// waits for the reference date, as the phrase itself.
pub proof fn theorem_spaces_between_tokens(
    text: Seq<u8>,
    at: int,
    count: nat,
    allow_inconstant: bool,
    supply: Option<NaiveDateTime>,
)
    requires
        between_tokens(text, at),
    ensures
        between_tokens(with_spaces(text, at, count), at),
        match outcome(text, allow_inconstant, supply) {
            Verdict::Done(Ok(total)) => outcome(
                with_spaces(text, at, count),
                allow_inconstant,
                supply,
            ) == Verdict::Done(Ok(total)),
            Verdict::Done(Err(_)) => outcome(
                with_spaces(text, at, count),
                allow_inconstant,
                supply,
            ) matches Verdict::Done(Err(_)),
            Verdict::Waiting(_) => outcome(with_spaces(text, at, count), allow_inconstant, supply)
                is Waiting,
        },
    decreases count,
{
    if count > 0 {
        let fewer = with_spaces(text, at, (count - 1) as nat);
        theorem_spaces_between_tokens(text, at, (count - 1) as nat, allow_inconstant, supply);
        theorem_space_between_tokens(fewer, at, allow_inconstant, supply);
        lemma_with_space(fewer, at);
    }
}

} // verus!
