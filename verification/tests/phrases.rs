use chrono::{DateTime, Duration, NaiveDate, NaiveDateTime, NaiveTime, Utc};
use parse_interval::{simple, with_date, with_lazy_date, ParseError};

fn date_year_month_day(year: i32, month: u32, day: u32) -> NaiveDateTime {
    NaiveDate::from_ymd_opt(year, month, day).unwrap().and_time(NaiveTime::default())
}

/// Date subtractions never overflow.
#[test]
fn overflow_date() {
    let _ = DateTime::<Utc>::MIN_UTC - DateTime::<Utc>::MAX_UTC;
}

#[test]
fn simple_case() {
    assert_eq!(simple("5 weeks 3 days"), Ok(Duration::seconds(3283200)));
}

#[test]
fn short() {
    assert_eq!(simple("5w3d1h30m30s"), Ok(Duration::seconds(3288630)));
}

#[test]
fn subtraction() {
    assert_eq!(simple("5 weeks -3 days"), Ok(Duration::seconds(2764800)));
}

#[test]
fn negative_duration() {
    assert_eq!(simple("-5 weeks 3 days"), Ok(Duration::seconds(-3283200)));
}

#[test]
fn double_subtraction() {
    assert_eq!(simple("-5 weeks -3 days"), Ok(Duration::seconds(-2764800)));
}

#[test]
fn space_mess() {
    assert_eq!(simple("  -  5   weeks    -   3   days  "), Ok(Duration::seconds(-2764800)));
}

#[test]
fn ignore_case() {
    assert_eq!(simple("5 WEEKS 3 days"), Ok(Duration::seconds(3283200)));
}

#[test]
fn fractions() {
    assert_eq!(
        simple("0.5 week 2.5 days 3.55 hours .5 minutes 1 second"),
        Ok(Duration::seconds(531211))
    );
}

/// The fraction of a unit is rounded down to whole seconds.
#[test]
fn fraction_rounding() {
    assert_eq!(simple("0.1s"), Ok(Duration::seconds(0)));
    assert_eq!(simple("0.017m"), Ok(Duration::seconds(1)));
}

#[test]
fn invalid_fraction() {
    assert_eq!(simple("0.5.0d"), Err(ParseError::NoUnit(3)));
}

#[test]
fn lone_period() {
    assert_eq!(simple(".d"), Err(ParseError::NoNumber(0)));
}

#[test]
fn inconstant_fraction() {
    assert_eq!(
        with_date("0.5y", date_year_month_day(2020, 6, 20)),
        Err(ParseError::InconstantUnitWithFraction)
    );
}

#[test]
fn empty_input() {
    assert_eq!(simple(""), Err(ParseError::Empty));
}

#[test]
fn spaces_input() {
    assert_eq!(simple("  "), Err(ParseError::Empty));
}

#[test]
fn duplicate_units() {
    assert_eq!(simple("5 days 3 days"), Err(ParseError::UnitOutOfSequence(9)));
}

#[test]
fn out_of_order_units() {
    assert_eq!(simple("5 days 3 weeks"), Err(ParseError::UnitOutOfSequence(9)));
}

#[test]
fn non_units() {
    assert_eq!(simple("5 days 3 apples"), Err(ParseError::NoUnit(9)));
}

#[test]
fn missing_number() {
    assert_eq!(simple("5 days weeks"), Err(ParseError::NoNumber(7)));
}

#[test]
fn years_without_date() {
    assert_eq!(simple("5 years 3 days"), Err(ParseError::InconstantUnitWithoutDate));
}

#[test]
fn out_of_range() {
    assert_eq!(
        with_date("-1 year - 12 months", DateTime::<Utc>::MIN_UTC.naive_utc()),
        Err(ParseError::DateOutOfRange)
    );
}

#[test]
fn leap_year_forward() {
    assert_eq!(with_date("1 month", date_year_month_day(2000, 2, 1)), Ok(Duration::days(29)));
}

#[test]
fn leap_year_backward() {
    assert_eq!(with_date("-1 month", date_year_month_day(2000, 2, 1)), Ok(Duration::days(-31)));
}

#[test]
fn year_equals_twelve_months_forwards() {
    assert_eq!(
        with_date("1 year -12 months", date_year_month_day(2000, 2, 1)),
        Ok(Duration::default())
    );
}

#[test]
fn year_equals_twelve_months_backwards() {
    assert_eq!(
        with_date("-1 year -12 months", date_year_month_day(2000, 2, 1)),
        Ok(Duration::default())
    );
}

#[test]
fn lazy_eager_same_outcome() {
    let date = date_year_month_day(2000, 2, 1);
    let interval = "1 year 3 months 15 minutes";
    assert_eq!(with_date(interval, date), with_lazy_date(interval, move || date));
}

#[test]
fn doc_examples() {
    let duration = with_lazy_date("2 days 15 hours 15 mins", || Utc::now().naive_utc());
    assert_eq!(duration, Ok(chrono::Duration::seconds(227700)));

    let duration = with_lazy_date("1 month", || {
        NaiveDate::from_ymd_opt(2000, 2, 1).unwrap().and_time(NaiveTime::default())
    });
    assert_eq!(duration, Ok(chrono::Duration::days(29)));
}
