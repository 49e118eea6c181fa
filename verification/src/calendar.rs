//! What this crate relies on from `chrono`: durations as counts of nanoseconds,
//! and dates that can be moved by whole months.

use chrono::{Months, NaiveDateTime, TimeDelta};
use vstd::prelude::*;

verus! {

/// `chrono::TimeDelta`, a signed duration. Its fields are not visible here:
/// [`delta_nanos`] stands for its length.
#[verifier::external_type_specification]
#[verifier::external_body]
pub struct ExTimeDelta(TimeDelta);

/// `chrono::NaiveDateTime`, a date and time without a time zone, which this
/// crate takes as UTC. Its fields are not visible here.
#[verifier::external_type_specification]
#[verifier::external_body]
pub struct ExNaiveDateTime(NaiveDateTime);

/// The nanoseconds in a second.
pub const NANOS_PER_SECOND: i64 = 1_000_000_000;

/// The largest number of whole seconds a `TimeDelta` holds: `i64::MAX / 1000`.
pub const MAX_DELTA_SECONDS: i64 = 9_223_372_036_854_775;

/// The largest `TimeDelta` in nanoseconds: `i64::MAX` milliseconds.
pub const MAX_DELTA_NANOS: i128 = 9_223_372_036_854_775_807_000_000;

/// The length of a `TimeDelta` in nanoseconds, negative for a negative delta.
/// Not every delta lies within the range that `chrono` documents, which
/// [`delta_fits`] states: `TimeDelta::checked_mul` can give one beyond it.
pub uninterp spec fn delta_nanos(delta: TimeDelta) -> int;

/// What `NaiveDateTime::checked_add_months` gives for a date and a number of months.
pub uninterp spec fn months_added(date: NaiveDateTime, months: u32) -> Option<NaiveDateTime>;

/// What `NaiveDateTime::checked_sub_months` gives for a date and a number of months.
pub uninterp spec fn months_subtracted(date: NaiveDateTime, months: u32) -> Option<
    NaiveDateTime,
>;

/// The nanoseconds from `earlier` to `later`, as `NaiveDateTime::signed_duration_since`
/// counts them.
pub uninterp spec fn nanos_between(later: NaiveDateTime, earlier: NaiveDateTime) -> int;

/// The nanoseconds from `earlier` to `later`: none from a date to itself.
pub open spec fn time_between(later: NaiveDateTime, earlier: NaiveDateTime) -> int {
    if later == earlier {
        0
    } else {
        nanos_between(later, earlier)
    }
}

/// Whether a count of nanoseconds fits in a `TimeDelta`.
pub open spec fn delta_fits(nanos: int) -> bool {
    -MAX_DELTA_NANOS <= nanos <= MAX_DELTA_NANOS
}

/// `TimeDelta::try_seconds` is trusted to give the delta of that many seconds, and
/// `None` exactly when the count is beyond `i64::MAX / 1000` in either direction.
pub assume_specification[ TimeDelta::try_seconds ](seconds: i64) -> (delta: Option<TimeDelta>)
    ensures
        delta is Some <==> -MAX_DELTA_SECONDS <= seconds <= MAX_DELTA_SECONDS,
        delta matches Some(d) ==> delta_nanos(d) == seconds * NANOS_PER_SECOND,
;

/// `TimeDelta::checked_add` is trusted to give the exact sum, and `None` exactly
/// when the sum is beyond `i64::MAX` milliseconds in either direction. It adds
/// the seconds of the two deltas unchecked, so both have to lie in that range.
pub assume_specification[ TimeDelta::checked_add ](lhs: &TimeDelta, rhs: &TimeDelta) -> (sum:
    Option<TimeDelta>)
    requires
        delta_fits(delta_nanos(*lhs)),
        delta_fits(delta_nanos(*rhs)),
    ensures
        sum is Some <==> delta_fits(delta_nanos(*lhs) + delta_nanos(*rhs)),
        sum matches Some(d) ==> delta_nanos(d) == delta_nanos(*lhs) + delta_nanos(*rhs),
;

/// `TimeDelta::checked_sub` is trusted to give the exact difference, and `None`
/// exactly when the difference is beyond `i64::MAX` milliseconds in either
/// direction. It subtracts the seconds of the two deltas unchecked, so both have
/// to lie in that range.
pub assume_specification[ TimeDelta::checked_sub ](lhs: &TimeDelta, rhs: &TimeDelta) -> (diff:
    Option<TimeDelta>)
    requires
        delta_fits(delta_nanos(*lhs)),
        delta_fits(delta_nanos(*rhs)),
    ensures
        diff is Some <==> delta_fits(delta_nanos(*lhs) - delta_nanos(*rhs)),
        diff matches Some(d) ==> delta_nanos(d) == delta_nanos(*lhs) - delta_nanos(*rhs),
;

/// `NaiveDateTime::signed_duration_since` is trusted to depend on the two dates
/// alone, to give the zero delta for a date and itself, and to give a delta
/// within `i64::MAX` milliseconds in either direction.
pub assume_specification[ NaiveDateTime::signed_duration_since ](
    later: NaiveDateTime,
    earlier: NaiveDateTime,
) -> (elapsed: TimeDelta)
    ensures
        delta_fits(delta_nanos(elapsed)),
        later == earlier ==> delta_nanos(elapsed) == 0,
        later != earlier ==> delta_nanos(elapsed) == nanos_between(later, earlier),
;

/// Calls `NaiveDateTime::checked_add_months`, which is trusted to depend on the
/// date and the number of months alone.
#[verifier::external_body]
pub(crate) fn add_months(date: NaiveDateTime, months: u32) -> (moved: Option<NaiveDateTime>)
    ensures
        moved == months_added(date, months),
{
    date.checked_add_months(Months::new(months))
}

/// Calls `NaiveDateTime::checked_sub_months`, which is trusted to depend on the
/// date and the number of months alone.
#[verifier::external_body]
pub(crate) fn sub_months(date: NaiveDateTime, months: u32) -> (moved: Option<NaiveDateTime>)
    ensures
        moved == months_subtracted(date, months),
{
    date.checked_sub_months(Months::new(months))
}

} // verus!
