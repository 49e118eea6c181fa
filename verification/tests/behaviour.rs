use std::cell::Cell;

use chrono::{Duration, NaiveDate, NaiveDateTime, NaiveTime, Utc};
use parse_interval::errors::ParseError;
use parse_interval::fraction::Fraction;
use parse_interval::interval::{
    add_fixed_term, move_date, parse_interval, parse_next_unit, parse_signs, resume, settle,
    Outcome,
};
use parse_interval::parse_bytes::{is_break_byte, ParseBytes};
use parse_interval::time_units::{raw_unit, UnitTable};
use parse_interval::{simple, with_date, with_lazy_date};
use regex::bytes::Regex;

fn midnight(year: i32, month: u32, day: u32) -> NaiveDateTime {
    NaiveDate::from_ymd_opt(year, month, day).unwrap().and_time(NaiveTime::default())
}

#[test]
fn every_fixed_unit_adds_its_seconds() {
    assert_eq!(
        simple("1w 2d 3h 4m 5s"),
        Ok(Duration::seconds(604_800 + 2 * 86_400 + 3 * 3_600 + 4 * 60 + 5))
    );
}

#[test]
fn unit_names_and_abbreviations() {
    for phrase in ["2w", "2 week", "2 weeks", "2 Weeks"] {
        assert_eq!(simple(phrase), Ok(Duration::seconds(1_209_600)));
    }
    for phrase in ["2d", "2 day", "2 days"] {
        assert_eq!(simple(phrase), Ok(Duration::seconds(172_800)));
    }
    for phrase in ["2h", "2 hr", "2 hrs", "2 hour", "2 hours"] {
        assert_eq!(simple(phrase), Ok(Duration::seconds(7_200)));
    }
    for phrase in ["2m", "2 min", "2 mins", "2 minute", "2 minutes"] {
        assert_eq!(simple(phrase), Ok(Duration::seconds(120)));
    }
    for phrase in ["2s", "2 sec", "2 secs", "2 second", "2 seconds"] {
        assert_eq!(simple(phrase), Ok(Duration::seconds(2)));
    }
    let start = midnight(2001, 1, 1);
    for phrase in ["2y", "2 year", "2 years"] {
        assert_eq!(with_date(phrase, start), Ok(Duration::days(730)));
    }
    for phrase in ["2mo", "2 month", "2 months"] {
        assert_eq!(with_date(phrase, start), Ok(Duration::days(59)));
    }
}

#[test]
fn spacing_between_tokens_does_not_matter() {
    let expected = Ok(Duration::seconds(604_800 - 86_400));
    for phrase in ["1w-1d", "1 w - 1 d", " 1w -1d ", "1   w   -   1   d", "1w- 1d   "] {
        assert_eq!(simple(phrase), expected);
    }
}

#[test]
fn space_within_a_number_or_a_word_matters() {
    assert_eq!(simple("1 2w"), Err(ParseError::NoUnit(2)));
    assert_eq!(simple("1we ek"), Err(ParseError::NoNumber(2)));
}

#[test]
fn only_the_space_is_skipped() {
    assert_eq!(simple("5\tw"), Err(ParseError::NoUnit(1)));
    assert_eq!(simple("5w\n"), Err(ParseError::NoNumber(2)));
}

#[test]
fn minus_signs_toggle() {
    assert_eq!(simple("--5 weeks"), simple("5 weeks"));
    assert_eq!(simple("- - 5 weeks"), Ok(Duration::seconds(3_024_000)));
    assert_eq!(simple("---5 weeks"), simple("-5 weeks"));
    assert_eq!(simple("---5 weeks"), Ok(Duration::seconds(-3_024_000)));
    assert_eq!(simple("5 weeks --3 days"), simple("5 weeks 3 days"));
}

#[test]
fn even_signs_before_a_number_vanish() {
    let pairs = [
        ("--5w", "5w"),
        ("- -  5w 3d", "5w 3d"),
        ("5w--3d", "5w3d"),
        ("5w - - - -3d", "5w 3d"),
        ("5w ---- .5d 1h", "5w .5d 1h"),
        ("-5w -- --3d", "-5w 3d"),
    ];
    for (signed, plain) in pairs {
        assert!(simple(plain).is_ok());
        assert_eq!(simple(signed), simple(plain));
        let date = midnight(2000, 2, 1);
        assert_eq!(with_date(signed, date), with_date(plain, date));
    }
    assert_eq!(simple("5w -- 3x"), Err(ParseError::NoUnit(7)));
    assert_eq!(simple("5w 3x"), Err(ParseError::NoUnit(4)));
    assert_eq!(simple("5w -- 3w"), Err(ParseError::UnitOutOfSequence(7)));
    assert_eq!(simple("5w 3w"), Err(ParseError::UnitOutOfSequence(4)));
}

#[test]
fn signs_without_a_number_are_refused() {
    assert_eq!(simple("5w --"), Err(ParseError::NoNumber(5)));
    assert_eq!(simple("5w -- "), Err(ParseError::NoNumber(6)));
    assert_eq!(simple("5--w"), Err(ParseError::NoUnit(1)));
}

#[test]
fn direction_stays_until_the_next_minus_sign() {
    assert_eq!(simple("5w -3d 2h"), Ok(Duration::seconds(3_024_000 - 259_200 - 7_200)));
    assert_eq!(simple("-5w -3d -2h"), Ok(Duration::seconds(-3_024_000 + 259_200 - 7_200)));
}

#[test]
fn number_without_unit() {
    assert_eq!(simple("5"), Err(ParseError::NoUnit(1)));
    assert_eq!(simple("5 "), Err(ParseError::NoUnit(2)));
    assert_eq!(simple("5 w 3"), Err(ParseError::NoUnit(5)));
    assert_eq!(simple("1e5s"), Err(ParseError::NoUnit(1)));
}

#[test]
fn unit_without_number() {
    assert_eq!(simple("w"), Err(ParseError::NoNumber(0)));
    assert_eq!(simple("5w x"), Err(ParseError::NoNumber(3)));
    assert_eq!(simple("  weeks"), Err(ParseError::NoNumber(2)));
}

#[test]
fn minus_sign_without_number() {
    assert_eq!(simple("5 days -"), Err(ParseError::NoNumber(8)));
    assert_eq!(simple("-"), Err(ParseError::NoNumber(1)));
}

#[test]
fn every_unit_out_of_its_place_is_refused() {
    let names = ["w", "d", "h", "min", "s"];
    for later in 0..names.len() {
        for earlier in 0..=later {
            let phrase = format!("1{} 1{}", names[later], names[earlier]);
            let position = names[later].len() + 3;
            assert_eq!(simple(&phrase), Err(ParseError::UnitOutOfSequence(position)));
        }
    }
    assert_eq!(
        with_date("1 month 1 year", midnight(2000, 1, 1)),
        Err(ParseError::UnitOutOfSequence(10))
    );
    assert_eq!(
        with_date("1 day 1 year", midnight(2000, 1, 1)),
        Err(ParseError::UnitOutOfSequence(8))
    );
}

#[test]
fn month_without_date_is_read_as_minutes() {
    assert_eq!(simple("5 months"), Err(ParseError::NoNumber(3)));
    assert_eq!(simple("5 days 1 month"), Err(ParseError::NoNumber(10)));
    assert_eq!(simple("5 minutes 1 month"), Err(ParseError::InconstantUnitWithoutDate));
    assert_eq!(simple("5 seconds 1 year"), Err(ParseError::InconstantUnitWithoutDate));
}

#[test]
fn lazy_date_is_the_eager_date() {
    let date = midnight(1999, 12, 31);
    for phrase in ["3 days", "1 year", "2 months -3 hours", "1 year 1 apple", "-1y 1.5mo", ""] {
        assert_eq!(with_lazy_date(phrase, move || date), with_date(phrase, date));
    }
}

#[test]
fn lazy_date_is_fetched_once_and_only_when_needed() {
    let calls = Cell::new(0);
    let fetch = || {
        calls.set(calls.get() + 1);
        midnight(2000, 2, 1)
    };
    assert_eq!(with_lazy_date("3 days 4 hours", fetch), Ok(Duration::seconds(273_600)));
    assert_eq!(calls.get(), 0);
    let fetch = || {
        calls.set(calls.get() + 1);
        midnight(2000, 2, 1)
    };
    assert_eq!(with_lazy_date("1 year 2 months 1 day", fetch), Ok(Duration::days(366 + 59 + 1)));
    assert_eq!(calls.get(), 1);
    let fetch = || {
        calls.set(calls.get() + 1);
        midnight(2000, 2, 1)
    };
    assert_eq!(with_lazy_date("0.5 years", fetch), Err(ParseError::InconstantUnitWithFraction));
    assert_eq!(calls.get(), 1);
}

#[test]
fn year_forward_and_twelve_months_back() {
    for date in [midnight(2001, 3, 15), midnight(1970, 1, 1), midnight(2000, 2, 28)] {
        assert_eq!(with_date("1 year -12 months", date), Ok(Duration::zero()));
    }
}

#[test]
fn leap_day_does_not_come_back() {
    assert_eq!(with_date("1 year -12 months", midnight(2000, 2, 29)), Ok(Duration::days(-1)));
}

#[test]
fn calendar_terms_keep_the_time_of_day() {
    let date = NaiveDate::from_ymd_opt(2000, 1, 31).unwrap().and_hms_nano_opt(13, 14, 15, 16).unwrap();
    assert_eq!(with_date("1 month", date), Ok(Duration::days(29)));
    assert_eq!(with_date("1 month 1 second", date), Ok(Duration::seconds(29 * 86_400 + 1)));
}

#[test]
fn whole_numbers_of_years_and_months_only() {
    let date = midnight(2020, 6, 20);
    assert_eq!(with_date("1.5 months", date), Err(ParseError::InconstantUnitWithFraction));
    assert_eq!(with_date("0.000000000000000000000000000000000000000000001y", date),
        Err(ParseError::InconstantUnitWithFraction));
    assert_eq!(with_date("1.0 year", date), Ok(Duration::days(365)));
    assert_eq!(with_date("1. year", date), Ok(Duration::days(365)));
    assert_eq!(with_date("2.000 months", date), Ok(Duration::days(61)));
}

#[test]
fn numbers_out_of_range() {
    assert_eq!(simple("9223372036854775808s"), Err(ParseError::NumberOutOfRange));
    assert_eq!(simple("9223372036854775807s"), Err(ParseError::NumberOutOfRange));
    assert_eq!(simple("9223372036854776s"), Err(ParseError::NumberOutOfRange));
    assert_eq!(simple("9223372036854775s"), Ok(Duration::seconds(9_223_372_036_854_775)));
    assert_eq!(simple("-9223372036854775s"), Ok(Duration::seconds(-9_223_372_036_854_775)));
    assert_eq!(simple("1m 9223372036854775s"), Err(ParseError::NumberOutOfRange));
    assert_eq!(
        simple("15250284452w 3d 7h 12m 55s"),
        Ok(Duration::seconds(9_223_372_036_854_775))
    );
    assert_eq!(simple("15250284452w 3d 7h 12m 56s"), Err(ParseError::NumberOutOfRange));
    assert_eq!(
        simple("-15250284452w 3d 7h 12m 55s"),
        Ok(Duration::seconds(-9_223_372_036_854_775))
    );
    assert_eq!(simple("-15250284452w 3d 7h 12m 55.5s"), Ok(Duration::seconds(-9_223_372_036_854_775)));
    assert_eq!(simple("-15250284452w 3d 7h 12m 56s"), Err(ParseError::NumberOutOfRange));
    assert_eq!(simple("99999999999999999999999.5w"), Err(ParseError::NumberOutOfRange));
}

#[test]
fn months_out_of_range() {
    let date = midnight(2000, 1, 1);
    assert_eq!(with_date("4294967296 months", date), Err(ParseError::DateOutOfRange));
    assert_eq!(with_date("-4294967296 months", date), Err(ParseError::DateOutOfRange));
    assert_eq!(with_date("357913942 years", date), Err(ParseError::DateOutOfRange));
    assert_eq!(with_date("768614336404564651 years", date), Err(ParseError::DateOutOfRange));
    assert_eq!(with_date("9223372036854775807 months", date), Err(ParseError::DateOutOfRange));
    assert_eq!(with_date("9223372036854775808 months", date), Err(ParseError::NumberOutOfRange));
    assert_eq!(
        with_date("4294967296 months", midnight(2000, 2, 1)),
        Err(ParseError::DateOutOfRange)
    );
    assert_eq!(with_date("4294967295 months", date), Err(ParseError::DateOutOfRange));
    assert_eq!(with_date("2147483648 months", date), Err(ParseError::DateOutOfRange));
    assert_eq!(with_date("300000 years", date), Err(ParseError::DateOutOfRange));
    assert_eq!(with_date("-300000 years", date), Err(ParseError::DateOutOfRange));
}

#[test]
fn sum_with_the_calendar_offset_out_of_range() {
    let date = midnight(2000, 1, 1);
    assert_eq!(
        with_date("200000 years 9223372036854775 seconds", date),
        Err(ParseError::NumberOutOfRange)
    );
    assert!(with_date("200000 years 1 second", date).is_ok());
}

#[test]
fn fraction_is_exact_and_rounded_down() {
    assert_eq!(simple("0.9999999999s"), Ok(Duration::seconds(0)));
    assert_eq!(simple("0.99999999999999999999999999999w"), Ok(Duration::seconds(604_799)));
    assert_eq!(simple("1.5w"), Ok(Duration::seconds(907_200)));
    assert_eq!(simple("-1.5w"), Ok(Duration::seconds(-907_200)));
    assert_eq!(simple("-0.017m"), Ok(Duration::seconds(-1)));
    assert_eq!(simple("0.3333333333333333333333333334h"), Ok(Duration::seconds(1_200)));
    assert_eq!(simple("0.3333333333333333333333333333h"), Ok(Duration::seconds(1_199)));
}

#[test]
fn fraction_scale() {
    assert_eq!(Fraction::new(b"55").scale(3_600), 1_980);
    assert_eq!(Fraction::new(b"5").scale(604_800), 302_400);
    assert_eq!(Fraction::new(b"017").scale(60), 1);
    assert_eq!(Fraction::new(b"").scale(60), 0);
    assert_eq!(Fraction::new(b"000").scale(60), 0);
    assert_eq!(Fraction::new(b"999").scale(1), 0);
    assert_eq!(Fraction::new(b"5").scale(u64::MAX), u64::MAX / 2);
    assert_eq!(Fraction::new(b"99999999999999999999").scale(u64::MAX), u64::MAX - 1);
    assert_eq!(Fraction::new(b"5").scale(0), 0);
}

#[test]
fn fraction_scale_is_the_floor_of_the_product() {
    for numerator in 0..1000u64 {
        let digits = format!("{:03}", numerator);
        let fraction = Fraction::new(digits.as_bytes());
        for factor in [0, 1, 7, 60, 3_600, 86_400, 604_800, 999_983] {
            assert_eq!(fraction.scale(factor), factor * numerator / 1000);
        }
    }
}

#[test]
fn fraction_is_zero() {
    assert!(Fraction::new(b"").is_zero());
    assert!(Fraction::new(b"0").is_zero());
    assert!(Fraction::new(b"0000").is_zero());
    assert!(!Fraction::new(b"0001").is_zero());
    assert!(!Fraction::new(b"5").is_zero());
}

#[test]
fn cursor_moves_over_spaces() {
    let mut bytes = ParseBytes::from_str("   x  ");
    assert_eq!(bytes.offset(), 0);
    assert!(!bytes.is_empty());
    bytes.skip_spaces();
    assert_eq!(bytes.offset(), 3);
    bytes.skip_spaces();
    assert_eq!(bytes.offset(), 3);
    let mut bytes = ParseBytes::from_str("    ");
    bytes.skip_spaces();
    assert_eq!(bytes.offset(), 4);
    assert!(bytes.is_empty());
    let mut bytes = ParseBytes::from_str("");
    assert!(bytes.is_empty());
    bytes.skip_spaces();
    assert_eq!(bytes.offset(), 0);
}

#[test]
fn cursor_takes_one_minus_sign() {
    let mut bytes = ParseBytes::from_str("--1");
    assert!(bytes.parse_minus());
    assert_eq!(bytes.offset(), 1);
    assert!(bytes.parse_minus());
    assert_eq!(bytes.offset(), 2);
    assert!(!bytes.parse_minus());
    assert_eq!(bytes.offset(), 2);
    let mut bytes = ParseBytes::from_str("");
    assert!(!bytes.parse_minus());
}

#[test]
fn cursor_takes_all_signs() {
    let mut bytes = ParseBytes::from_str("- -  -5");
    assert!(parse_signs(&mut bytes, false));
    assert_eq!(bytes.offset(), 6);
    let mut bytes = ParseBytes::from_str("- -  -5");
    assert!(!parse_signs(&mut bytes, true));
    let mut bytes = ParseBytes::from_str("--  5");
    assert!(!parse_signs(&mut bytes, false));
    assert_eq!(bytes.offset(), 4);
    let mut bytes = ParseBytes::from_str("5");
    assert!(!parse_signs(&mut bytes, false));
    assert!(parse_signs(&mut bytes, true));
    assert_eq!(bytes.offset(), 0);
}

#[test]
fn cursor_reads_numbers() {
    let mut bytes = ParseBytes::from_str("12.50h");
    let (whole, fraction) = bytes.parse_number().unwrap();
    assert_eq!(whole, 12);
    assert_eq!(fraction.scale(100), 50);
    assert_eq!(bytes.offset(), 5);

    let mut bytes = ParseBytes::from_str("007");
    let (whole, fraction) = bytes.parse_number().unwrap();
    assert_eq!(whole, 7);
    assert!(fraction.is_zero());
    assert!(bytes.is_empty());

    let mut bytes = ParseBytes::from_str(".25");
    let (whole, fraction) = bytes.parse_number().unwrap();
    assert_eq!(whole, 0);
    assert_eq!(fraction.scale(100), 25);

    let mut bytes = ParseBytes::from_str("3.x");
    let (whole, fraction) = bytes.parse_number().unwrap();
    assert_eq!(whole, 3);
    assert!(fraction.is_zero());
    assert_eq!(bytes.offset(), 2);

    let mut bytes = ParseBytes::from_str("1.2.3");
    let (whole, fraction) = bytes.parse_number().unwrap();
    assert_eq!((whole, fraction.scale(10)), (1, 2));
    assert_eq!(bytes.offset(), 3);

    let mut bytes = ParseBytes::from_str("9223372036854775807");
    assert_eq!(bytes.parse_number().unwrap().0, i64::MAX);
}

#[test]
fn cursor_refuses_what_is_no_number() {
    for text in ["", ".", "x", ".x", " 1", "-1"] {
        let mut bytes = ParseBytes::from_str(text);
        assert!(matches!(bytes.parse_number(), Err(ParseError::NoNumber(0))));
        assert_eq!(bytes.offset(), 0);
    }
    let mut bytes = ParseBytes::from_str("  .");
    bytes.skip_spaces();
    assert!(matches!(bytes.parse_number(), Err(ParseError::NoNumber(2))));
    let mut bytes = ParseBytes::from_str("9223372036854775808");
    assert!(matches!(bytes.parse_number(), Err(ParseError::NumberOutOfRange)));
    assert_eq!(bytes.offset(), 0);
}

#[test]
fn cursor_matches_within_the_next_word() {
    let pattern = Regex::new("^ab?").unwrap();
    let mut bytes = ParseBytes::from_str("abc ab");
    assert_eq!(bytes.word(), b"abc");
    assert!(bytes.parse_regex(&pattern));
    assert_eq!(bytes.offset(), 2);
    assert_eq!(bytes.word(), b"c");
    assert!(!bytes.parse_regex(&pattern));
    assert_eq!(bytes.offset(), 2);

    let spaced = Regex::new("^a b").unwrap();
    let mut bytes = ParseBytes::from_str("a b");
    assert!(!bytes.parse_regex(&spaced));
    assert_eq!(bytes.word(), b"a");
    let mut bytes = ParseBytes::from_str("5");
    assert_eq!(bytes.word(), b"");
    assert!(!bytes.parse_regex(&pattern));
}

#[test]
fn unit_is_found_in_the_word_as_in_all_that_follows() {
    let table = UnitTable::new();
    let texts = [
        "weeks 3 days", "w3d", "min-5s", "hours.5", "mo 1", "s5", "yearsx 1", "minutes", "minut 5",
        "hou rs", "sec0nd", "d-", "WEEK.", "Mo8", "secondsseconds 1", "\u{17f}econd\u{17f} 4", "",
    ];
    for text in texts {
        let word = ParseBytes::from_str(text).word();
        for unit in table.units() {
            let in_word = unit.regex.find(word).map(|found| found.end());
            let in_text = unit.regex.find(text.as_bytes()).map(|found| found.end());
            assert_eq!(in_word, in_text);
        }
    }
}

#[test]
fn bytes_that_end_a_word() {
    for byte in [b' ', b'-', b'.', b'0', b'5', b'9'] {
        assert!(is_break_byte(byte));
    }
    for byte in [b'a', b'Z', b'/', b':', b'\t', b'+', b',', 0, 0xc5, 0xff] {
        assert!(!is_break_byte(byte));
    }
}

#[test]
fn case_is_folded_as_unicode_does() {
    assert_eq!(simple("5 wee\u{212a}s"), Ok(Duration::seconds(3_024_000)));
    assert_eq!(simple("5 \u{17f}econd\u{17f}"), Ok(Duration::seconds(5)));
    assert_eq!(simple("5 \u{17f}"), Ok(Duration::seconds(5)));
    assert_eq!(simple("5 w\u{e9}"), Err(ParseError::NoNumber(3)));
}

#[test]
fn table_holds_the_seven_units() {
    let table = UnitTable::new();
    let seconds: Vec<i64> = table.units().iter().map(|unit| unit.seconds).collect();
    assert_eq!(seconds, vec![220_752_000, 18_144_000, 604_800, 86_400, 3_600, 60, 1]);
    let names: [&[u8]; 7] = [b"YEARS", b"months", b"Week", b"d", b"hrs", b"minute", b"secs"];
    for (index, unit) in table.units().iter().enumerate() {
        for (other, name) in names.iter().enumerate() {
            let found = unit.regex.find(name).map(|found| found.end());
            if index == other {
                assert_eq!(found, Some(name.len()));
            } else if index == 5 && other == 1 {
                assert_eq!(found, Some(1));
            } else {
                assert_eq!(found, None);
            }
        }
        assert_eq!(raw_unit(index).seconds, unit.seconds);
        assert_eq!(raw_unit(index).compile().regex.as_str(), unit.regex.as_str());
    }
}

#[test]
fn next_unit_is_the_first_that_matches() {
    let table = UnitTable::new();
    let mut bytes = ParseBytes::from_str("months");
    assert_eq!(parse_next_unit(&mut bytes, table.units(), 0), Some(1));
    assert_eq!(bytes.offset(), 6);
    let mut bytes = ParseBytes::from_str("months");
    assert_eq!(parse_next_unit(&mut bytes, table.units(), 2), Some(5));
    assert_eq!(bytes.offset(), 1);
    let mut bytes = ParseBytes::from_str("months");
    assert_eq!(parse_next_unit(&mut bytes, table.units(), 6), None);
    assert_eq!(bytes.offset(), 0);
    let mut bytes = ParseBytes::from_str("s");
    assert_eq!(parse_next_unit(&mut bytes, table.units(), 7), None);
}

#[test]
fn diagnosis_of_a_unit_that_is_not_accepted() {
    let table = UnitTable::new();
    let units = table.units();
    let mut bytes = ParseBytes::from_str("1 year");
    bytes.parse_number().unwrap();
    bytes.skip_spaces();
    assert_eq!(
        ParseError::diagnose_unit_error(&bytes, units, 7, false),
        ParseError::InconstantUnitWithoutDate
    );
    assert_eq!(
        ParseError::diagnose_unit_error(&bytes, units, 7, true),
        ParseError::UnitOutOfSequence(2)
    );
    assert_eq!(ParseError::diagnose_unit_error(&bytes, units, 0, true), ParseError::NoUnit(2));
    let mut bytes = ParseBytes::from_str("1 day");
    bytes.parse_number().unwrap();
    bytes.skip_spaces();
    assert_eq!(
        ParseError::diagnose_unit_error(&bytes, units, 7, false),
        ParseError::UnitOutOfSequence(2)
    );
    assert_eq!(ParseError::diagnose_unit_error(&bytes, units, 3, false), ParseError::NoUnit(2));
    let bytes = ParseBytes::from_str("apple");
    assert_eq!(ParseError::diagnose_unit_error(&bytes, units, 7, false), ParseError::NoUnit(0));
}

#[test]
fn classification_of_a_passed_unit() {
    assert_eq!(ParseError::classify(Some(0), 4, false), ParseError::InconstantUnitWithoutDate);
    assert_eq!(ParseError::classify(Some(1), 4, false), ParseError::InconstantUnitWithoutDate);
    assert_eq!(ParseError::classify(Some(2), 4, false), ParseError::UnitOutOfSequence(4));
    assert_eq!(ParseError::classify(Some(0), 4, true), ParseError::UnitOutOfSequence(4));
    assert_eq!(ParseError::classify(Some(6), 4, true), ParseError::UnitOutOfSequence(4));
    assert_eq!(ParseError::classify(None, 4, true), ParseError::NoUnit(4));
    assert_eq!(ParseError::classify(None, 4, false), ParseError::NoUnit(4));
}

#[test]
fn fixed_term_is_added_or_subtracted() {
    let start = Duration::seconds(10);
    let half = Fraction::new(b"5");
    assert_eq!(add_fixed_term(start, false, 2, &half, 60), Ok(Duration::seconds(160)));
    assert_eq!(add_fixed_term(start, true, 2, &half, 60), Ok(Duration::seconds(-140)));
    assert_eq!(add_fixed_term(start, false, -2, &half, 60), Ok(Duration::seconds(-80)));
    assert_eq!(
        add_fixed_term(Duration::seconds(-5), false, 9_223_372_036_854_775, &half, 1),
        Ok(Duration::seconds(9_223_372_036_854_770))
    );
    assert_eq!(
        add_fixed_term(Duration::seconds(-5), false, 9_223_372_036_854_776, &half, 1),
        Err(ParseError::NumberOutOfRange)
    );
    assert_eq!(
        add_fixed_term(start, false, i64::MAX, &half, 2),
        Err(ParseError::NumberOutOfRange)
    );
    assert_eq!(
        add_fixed_term(Duration::MAX, false, 0, &half, 60),
        Err(ParseError::NumberOutOfRange)
    );
    assert_eq!(
        add_fixed_term(Duration::milliseconds(1_500), false, 1, &half, 2),
        Ok(Duration::milliseconds(4_500))
    );
}

#[test]
fn date_is_moved_by_years_and_months() {
    let date = midnight(2000, 1, 31);
    assert_eq!(move_date(date, false, 1, 1), Ok(midnight(2000, 2, 29)));
    assert_eq!(move_date(date, true, 2, 1), Ok(midnight(1999, 11, 30)));
    assert_eq!(move_date(date, false, 1, 0), Ok(midnight(2001, 1, 31)));
    assert_eq!(move_date(date, true, 4, 0), Ok(midnight(1996, 1, 31)));
    assert_eq!(move_date(date, false, 0, 0), Ok(date));
    assert_eq!(move_date(date, false, -1, 1), Err(ParseError::NumberOutOfRange));
    assert_eq!(move_date(date, false, i64::MIN, 0), Err(ParseError::NumberOutOfRange));
    assert_eq!(move_date(date, false, i64::MAX, 0), Err(ParseError::DateOutOfRange));
    assert_eq!(move_date(date, true, 357_913_942, 0), Err(ParseError::DateOutOfRange));
    assert_eq!(move_date(date, false, 4_294_967_296, 1), Err(ParseError::DateOutOfRange));
    assert_eq!(move_date(date, false, 4_294_967_295, 1), Err(ParseError::DateOutOfRange));
    assert_eq!(move_date(NaiveDateTime::MAX, false, 1, 1), Err(ParseError::DateOutOfRange));
    assert_eq!(move_date(NaiveDateTime::MIN, true, 1, 1), Err(ParseError::DateOutOfRange));
}

#[test]
fn calendar_offset_is_added_at_the_end() {
    let reference = midnight(2000, 2, 1);
    let moved = midnight(2000, 3, 1);
    assert_eq!(settle(Duration::seconds(5), None), Ok(Duration::seconds(5)));
    assert_eq!(
        settle(Duration::seconds(5), Some((reference, moved))),
        Ok(Duration::seconds(29 * 86_400 + 5))
    );
    assert_eq!(
        settle(Duration::seconds(5), Some((moved, reference))),
        Ok(Duration::seconds(-29 * 86_400 + 5))
    );
    assert_eq!(settle(Duration::seconds(5), Some((moved, moved))), Ok(Duration::seconds(5)));
    assert_eq!(
        settle(Duration::MAX, Some((reference, moved))),
        Err(ParseError::NumberOutOfRange)
    );
}

#[test]
fn reading_waits_for_the_date_and_goes_on() {
    let table = UnitTable::new();
    let paused = match parse_interval("  1 year -2 months 3 days", &table, true, None) {
        Outcome::NeedsDate(paused) => paused,
        Outcome::Finished(_) => panic!("the phrase has a year"),
    };
    assert_eq!(resume(paused, &table, midnight(2000, 1, 1)), Ok(Duration::days(366 - 61 - 3)));
    assert_eq!(resume(paused, &table, midnight(2001, 1, 1)), Ok(Duration::days(365 - 61 - 3)));

    let paused = match parse_interval("5 months 3 apples", &table, true, None) {
        Outcome::NeedsDate(paused) => paused,
        Outcome::Finished(_) => panic!("the phrase has a month"),
    };
    assert_eq!(resume(paused, &table, midnight(2000, 1, 1)), Err(ParseError::NoUnit(11)));

    for phrase in ["3 days", "1.5 years", "3 apples", "", "1 day 1 week"] {
        assert!(matches!(parse_interval(phrase, &table, true, None), Outcome::Finished(_)));
    }
    assert!(matches!(
        parse_interval("1 year", &table, true, Some(midnight(2000, 1, 1))),
        Outcome::Finished(Ok(_))
    ));
    assert!(matches!(
        parse_interval("1 year", &table, false, None),
        Outcome::Finished(Err(ParseError::InconstantUnitWithoutDate))
    ));
}

#[test]
fn table_is_shared_between_calls() {
    let table = UnitTable::new();
    assert_eq!(table.simple("1h"), Ok(Duration::seconds(3_600)));
    assert_eq!(table.simple("1h"), simple("1h"));
    let date = midnight(2000, 2, 1);
    assert_eq!(table.with_date("1mo", date), Ok(Duration::days(29)));
    assert_eq!(table.with_lazy_date("1mo", move || date), Ok(Duration::days(29)));
    assert_eq!(table.with_lazy_date("90s", || Utc::now().naive_utc()), Ok(Duration::seconds(90)));
    assert!(table.with_lazy_date("1 year 1 month", || Utc::now().naive_utc()).is_ok());
}
