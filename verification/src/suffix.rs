//! A reading depends only on what is still to be read: two texts that hold the
//! same bytes from some position on are read alike from there.

use crate::errors::{first_match, lemma_first_match, ParseError};
use crate::interval::{
    apply, direction_behind, lemma_signs_end, lemma_term_at, run, signs_end, term_at, Step, Tally,
    Term, Verdict,
};
use crate::parse_bytes::{
    digits_end, lemma_digits_end, lemma_number_at, lemma_spaces_end, lemma_word_end, minus_at,
    number_at, point_at, spaces_end, word_at, word_end, NumberSpan,
};
use crate::time_units::{name_end, unit_table, UNIT_COUNT};
use chrono::NaiveDateTime;
use vstd::prelude::*;

verus! {

/// Whether `other` holds, from the position `from + shift` on, the bytes that
/// `text` holds from the position `from` on.
pub open spec fn same_behind(text: Seq<u8>, other: Seq<u8>, from: int, shift: int) -> bool {
    &&& 0 <= from <= text.len()
    &&& 0 <= from + shift
    &&& other.len() == text.len() + shift
    &&& forall|i: int| from <= i < text.len() ==> other[i + shift] == #[trigger] text[i]
}

/// The spaces at a position end at the same place in both texts.
pub(crate) proof fn lemma_spaces_behind(
    text: Seq<u8>,
    other: Seq<u8>,
    from: int,
    shift: int,
    at: int,
)
    requires
        same_behind(text, other, from, shift),
        from <= at <= text.len(),
    ensures
        spaces_end(other, at + shift) == spaces_end(text, at) + shift,
    decreases text.len() - at,
{
    if at < text.len() {
        assert(other[at + shift] == text[at]);
        lemma_spaces_behind(text, other, from, shift, at + 1);
    }
}

/// The digits at a position end at the same place in both texts.
pub(crate) proof fn lemma_digits_behind(
    text: Seq<u8>,
    other: Seq<u8>,
    from: int,
    shift: int,
    at: int,
)
    requires
        same_behind(text, other, from, shift),
        from <= at <= text.len(),
    ensures
        digits_end(other, at + shift) == digits_end(text, at) + shift,
    decreases text.len() - at,
{
    if at < text.len() {
        assert(other[at + shift] == text[at]);
        lemma_digits_behind(text, other, from, shift, at + 1);
    }
}

/// The word at a position is the same word in both texts.
pub(crate) proof fn lemma_word_behind(
    text: Seq<u8>,
    other: Seq<u8>,
    from: int,
    shift: int,
    at: int,
)
    requires
        same_behind(text, other, from, shift),
        from <= at <= text.len(),
    ensures
        word_end(other, at + shift) == word_end(text, at) + shift,
        word_at(other, at + shift) == word_at(text, at),
    decreases text.len() - at,
{
    if at < text.len() {
        assert(other[at + shift] == text[at]);
        lemma_word_behind(text, other, from, shift, at + 1);
    }
    lemma_word_end(text, at);
    assert(word_at(other, at + shift) =~= word_at(text, at));
}

/// The minus signs at a position end at the same place in both texts, and
/// leave the same direction.
pub(crate) proof fn lemma_signs_behind(
    text: Seq<u8>,
    other: Seq<u8>,
    from: int,
    shift: int,
    at: int,
    subtracting: bool,
)
    requires
        same_behind(text, other, from, shift),
        from <= at <= text.len(),
    ensures
        signs_end(other, at + shift) == signs_end(text, at) + shift,
        direction_behind(other, at + shift, subtracting) == direction_behind(
            text,
            at,
            subtracting,
        ),
    decreases text.len() - at,
{
    if at < text.len() {
        assert(other[at + shift] == text[at]);
    }
    if minus_at(text, at) {
        lemma_spaces_end(text, at + 1);
        lemma_spaces_behind(text, other, from, shift, at + 1);
        lemma_signs_behind(text, other, from, shift, spaces_end(text, at + 1), !subtracting);
    }
}

/// The number at a position is the same number in both texts.
pub(crate) proof fn lemma_number_behind(
    text: Seq<u8>,
    other: Seq<u8>,
    from: int,
    shift: int,
    at: int,
)
    requires
        same_behind(text, other, from, shift),
        from <= at <= text.len(),
    ensures
        match number_at(text, at) {
            Ok(number) => number_at(other, at + shift) == Ok::<NumberSpan, ParseError>(
                NumberSpan { end: number.end + shift, ..number },
            ),
            Err(_) => number_at(other, at + shift) is Err,
        },
{
    lemma_digits_end(text, at);
    lemma_digits_behind(text, other, from, shift, at);
    let point = digits_end(text, at);
    if point < text.len() {
        assert(other[point + shift] == text[point]);
    }
    assert(other.subrange(at + shift, point + shift) =~= text.subrange(at, point));
    if point_at(text, point) {
        lemma_digits_end(text, point + 1);
        lemma_digits_behind(text, other, from, shift, point + 1);
        let end = digits_end(text, point + 1);
        assert(other.subrange(point + 1 + shift, end + shift) =~= text.subrange(point + 1, end));
    }
}

/// The term at a position is the same term in both texts.
pub(crate) proof fn lemma_term_behind(
    text: Seq<u8>,
    other: Seq<u8>,
    from: int,
    shift: int,
    position: int,
    subtracting: bool,
    unit_cursor: int,
    allow_inconstant: bool,
)
    requires
        same_behind(text, other, from, shift),
        from <= position <= text.len(),
    ensures
        match term_at(text, position, subtracting, unit_cursor, allow_inconstant) {
            Ok(term) => term_at(
                other,
                position + shift,
                subtracting,
                unit_cursor,
                allow_inconstant,
            ) == Ok::<Term, ParseError>(Term { next: term.next + shift, ..term }),
            Err(_) => term_at(
                other,
                position + shift,
                subtracting,
                unit_cursor,
                allow_inconstant,
            ) is Err,
        },
{
    lemma_signs_end(text, position);
    lemma_signs_behind(text, other, from, shift, position, subtracting);
    let signed = signs_end(text, position);
    lemma_number_at(text, signed);
    lemma_number_behind(text, other, from, shift, signed);
    if let Ok(number) = number_at(text, signed) {
        lemma_spaces_end(text, number.end);
        lemma_spaces_behind(text, other, from, shift, number.end);
        let start = spaces_end(text, number.end);
        lemma_word_end(text, start);
        lemma_word_behind(text, other, from, shift, start);
        let word = word_at(text, start);
        lemma_first_match(unit_table(), word, unit_cursor, UNIT_COUNT as int);
        if let Some(unit) = first_match(unit_table(), word, unit_cursor, UNIT_COUNT as int) {
            let length = name_end(unit_table()[unit].regex, word).unwrap();
            lemma_spaces_behind(text, other, from, shift, start + length);
        }
    }
}

/// Two texts that hold the same bytes from some position on are read alike from
/// there: the reading is accepted with the same result in both, or refused in
/// both, or it waits for the reference date in both.
pub proof fn theorem_same_suffix(
    text: Seq<u8>,
    other: Seq<u8>,
    from: int,
    shift: int,
    tally: Tally,
    allow_inconstant: bool,
    supply: Option<NaiveDateTime>,
)
    requires
        same_behind(text, other, from, shift),
        from <= tally.position <= text.len(),
    ensures
        match run(text, tally, allow_inconstant, supply) {
            Verdict::Done(Ok(total)) => run(
                other,
                Tally { position: tally.position + shift, ..tally },
                allow_inconstant,
                supply,
            ) == Verdict::Done(Ok(total)),
            Verdict::Done(Err(_)) => run(
                other,
                Tally { position: tally.position + shift, ..tally },
                allow_inconstant,
                supply,
            ) matches Verdict::Done(Err(_)),
            Verdict::Waiting(_) => run(
                other,
                Tally { position: tally.position + shift, ..tally },
                allow_inconstant,
                supply,
            ) is Waiting,
        },
    decreases text.len() - tally.position,
{
    let place = Tally { position: tally.position + shift, ..tally };
    if tally.position < text.len() {
        lemma_term_at(text, tally.position, tally.subtracting, tally.unit_cursor, allow_inconstant);
        lemma_term_behind(
            text,
            other,
            from,
            shift,
            tally.position,
            tally.subtracting,
            tally.unit_cursor,
            allow_inconstant,
        );
        if let Ok(read) = term_at(
            text,
            tally.position,
            tally.subtracting,
            tally.unit_cursor,
            allow_inconstant,
        ) {
            let moved = Term { next: read.next + shift, ..read };
            match apply(tally, read, supply) {
                Step::Advance(next) => {
                    assert(apply(place, moved, supply) == Step::Advance(
                        Tally { position: next.position + shift, ..next },
                    ));
                    theorem_same_suffix(text, other, from, shift, next, allow_inconstant, supply);
                },
                Step::Halt(verdict) => {},
            }
        }
    }
}

} // verus!
