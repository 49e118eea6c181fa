//! The seven units a phrase may use, largest first, and the patterns that
//! recognise their names.

use regex::bytes::{Regex, RegexBuilder};
use vstd::prelude::*;

verus! {

/// `regex::bytes::Regex`, a compiled regular expression. Its fields are not
/// visible here: [`match_end`] stands for what it finds.
#[verifier::external_type_specification]
#[verifier::external_body]
pub struct ExRegex(Regex);

/// The number of units in the table.
pub const UNIT_COUNT: usize = 7;

/// The index below which a unit is a year or a month, whose length depends on
/// the calendar.
pub const FIRST_FIXED_UNIT: usize = 2;

/// The seconds in a week.
pub const SECONDS_PER_WEEK: i64 = 604_800;

/// The seconds in a day.
pub const SECONDS_PER_DAY: i64 = 86_400;

/// The seconds in an hour.
pub const SECONDS_PER_HOUR: i64 = 3_600;

/// The seconds in a minute.
pub const SECONDS_PER_MINUTE: i64 = 60;

/// The regular expression that `RegexBuilder` compiles from `pattern` with case
/// insensitive matching switched on.
pub uninterp spec fn case_insensitive(pattern: Seq<char>) -> Regex;

/// Where the first match of `regex` in `haystack` ends, as `Regex::find` reports
/// it, or `None` where nothing matches.
pub uninterp spec fn match_end(regex: Regex, haystack: Seq<u8>) -> Option<usize>;

/// A unit before its pattern is compiled.
pub struct TimeUnitRaw {
    /// The length of the unit in seconds. Years and months carry a nominal
    /// length that nothing reads.
    pub seconds: i64,
    /// A regular expression, anchored at the start, for the unit's names.
    pub pattern: &'static str,
}

/// A unit with its compiled pattern.
pub struct TimeUnit {
    /// The length of the unit in seconds.
    pub seconds: i64,
    /// The compiled pattern for the unit's names.
    pub regex: Regex,
}

/// The length in seconds of the unit at `index` of the table.
pub open spec fn unit_seconds(index: int) -> int {
    if index == 0 {
        220_752_000
    } else if index == 1 {
        18_144_000
    } else if index == 2 {
        SECONDS_PER_WEEK as int
    } else if index == 3 {
        SECONDS_PER_DAY as int
    } else if index == 4 {
        SECONDS_PER_HOUR as int
    } else if index == 5 {
        SECONDS_PER_MINUTE as int
    } else {
        1
    }
}

/// The pattern of the unit at `index` of the table: years, months, weeks, days,
/// hours, minutes, seconds.
pub open spec fn unit_pattern(index: int) -> Seq<char> {
    if index == 0 {
        "^y(?:ears?)?"@
    } else if index == 1 {
        "^mo(?:nths?)?"@
    } else if index == 2 {
        "^w(?:eeks?)?"@
    } else if index == 3 {
        "^d(?:ays?)?"@
    } else if index == 4 {
        "^h(?:(?:ou)?rs?)?"@
    } else if index == 5 {
        "^m(?:in(?:ute)?s?)?"@
    } else {
        "^s(?:ec(?:ond)?s?)?"@
    }
}

/// Whether `pattern` is the pattern of one of the seven units.
pub open spec fn is_unit_pattern(pattern: Seq<char>) -> bool {
    exists|index: int| 0 <= index < UNIT_COUNT && pattern == #[trigger] unit_pattern(index)
}

/// The compiled pattern of the unit at `index`.
pub open spec fn unit_regex(index: int) -> Regex {
    case_insensitive(unit_pattern(index))
}

/// Where the name that `regex` recognises ends in `word`, or `None` where the
/// expression finds nothing in the word. A match ends within the word.
pub open spec fn name_end(regex: Regex, word: Seq<u8>) -> Option<usize> {
    match match_end(regex, word) {
        Some(end) => if end <= word.len() {
            Some(end)
        } else {
            None
        },
        None => None,
    }
}

/// The table of the seven units, largest first.
pub open spec fn unit_table() -> Seq<TimeUnit> {
    Seq::new(
        UNIT_COUNT as nat,
        |index: int| TimeUnit { seconds: unit_seconds(index) as i64, regex: unit_regex(index) },
    )
}

/// Calls `RegexBuilder::new`, `case_insensitive(true)` and `build`. The seven
/// unit patterns are trusted to be valid, so that `build` does not fail, and the
/// result is trusted to depend on the pattern alone.
#[verifier::external_body]
fn compile_pattern(pattern: &str) -> (regex: Regex)
    requires
        is_unit_pattern(pattern@),
    ensures
        regex == case_insensitive(pattern@),
{
    RegexBuilder::new(pattern).case_insensitive(true).build().unwrap()
}

/// Calls `Regex::find` and `Match::end`. The result is trusted to depend on the
/// expression and the haystack alone, and the end of a match to lie within the
/// haystack.
#[verifier::external_body]
pub(crate) fn find_end(regex: &Regex, haystack: &[u8]) -> (end: Option<usize>)
    ensures
        end == match_end(*regex, haystack@),
        end matches Some(e) ==> e <= haystack@.len(),
{
    match regex.find(haystack) {
        Some(found) => Some(found.end()),
        None => None,
    }
}

/// The unit at `index` of the table, not yet compiled.
pub fn raw_unit(index: usize) -> (raw: TimeUnitRaw)
    requires
        index < UNIT_COUNT,
    ensures
        raw.seconds == unit_seconds(index as int),
        raw.pattern@ == unit_pattern(index as int),
{
    if index == 0 {
        TimeUnitRaw { seconds: 220_752_000, pattern: "^y(?:ears?)?" }
    } else if index == 1 {
        TimeUnitRaw { seconds: 18_144_000, pattern: "^mo(?:nths?)?" }
    } else if index == 2 {
        TimeUnitRaw { seconds: SECONDS_PER_WEEK, pattern: "^w(?:eeks?)?" }
    } else if index == 3 {
        TimeUnitRaw { seconds: SECONDS_PER_DAY, pattern: "^d(?:ays?)?" }
    } else if index == 4 {
        TimeUnitRaw { seconds: SECONDS_PER_HOUR, pattern: "^h(?:(?:ou)?rs?)?" }
    } else if index == 5 {
        TimeUnitRaw { seconds: SECONDS_PER_MINUTE, pattern: "^m(?:in(?:ute)?s?)?" }
    } else {
        TimeUnitRaw { seconds: 1, pattern: "^s(?:ec(?:ond)?s?)?" }
    }
}

impl TimeUnitRaw {
    /// Compiles the pattern, keeping the length.
    pub fn compile(&self) -> (unit: TimeUnit)
        requires
            is_unit_pattern(self.pattern@),
        ensures
            unit.seconds == self.seconds,
            unit.regex == case_insensitive(self.pattern@),
    {
        let regex = compile_pattern(self.pattern);
        TimeUnit { seconds: self.seconds, regex }
    }
}

/// The seven units with their patterns compiled. Build it once and share it:
/// compiling the patterns costs far more than parsing a phrase.
pub struct UnitTable {
    units: Vec<TimeUnit>,
}

impl View for UnitTable {
    type V = Seq<TimeUnit>;

    closed spec fn view(&self) -> Seq<TimeUnit> {
        self.units@
    }
}

impl UnitTable {
    #[verifier::type_invariant]
    spec fn complete(&self) -> bool {
        self.units@ == unit_table()
    }

    /// Compiles the table.
    pub fn new() -> (table: Self)
        ensures
            table@ == unit_table(),
    {
        let mut units: Vec<TimeUnit> = Vec::new();
        let mut index: usize = 0;
        while index < UNIT_COUNT
            invariant
                index <= UNIT_COUNT,
                units@.len() == index,
                forall|i: int| 0 <= i < index ==> #[trigger] units@[i] == unit_table()[i],
            decreases UNIT_COUNT - index,
        {
            let raw = raw_unit(index);
            assert(raw.pattern@ == unit_pattern(index as int));
            units.push(raw.compile());
            index += 1;
        }
        assert(units@ =~= unit_table());
        UnitTable { units }
    }

    /// The units, largest first.
    pub fn units(&self) -> (units: &[TimeUnit])
        ensures
            units@ == self@,
            units@ == unit_table(),
    {
        proof {
            use_type_invariant(self);
        }
        self.units.as_slice()
    }
}

} // verus!
