//! The bounds of a time window.

use vstd::prelude::*;

use crate::error::ErrorView;
use crate::error::TransformError;
use crate::time::TimeView;
use crate::time::Timestamp;

verus! {

/// The first day a date can be, counted from 1 January 1970.
pub const FIRST_DAY: i32 = -96465292;

/// The last day a date can be, counted from 1 January 1970.
pub const LAST_DAY: i32 = 95026236;

/// The instant of a text in RFC 3339, as `chrono` reads it.
pub uninterp spec fn rfc3339_instant(raw: Seq<char>) -> Option<TimeView>;

/// The day of a text in the given format, as `chrono` reads it.
pub uninterp spec fn read_day(raw: Seq<char>, format: Seq<char>) -> Option<int>;

/// The midnight with which a day begins.
pub open spec fn midnight(day: int) -> TimeView {
    TimeView { secs: day * 86400, nanos: 0 }
}

/// What the bound of a window of step `step` stands for, where `instant` and
/// `day` are what it is read as.
///
/// A bound in RFC 3339 is that instant. A bound that is a date is the midnight
/// with which the day begins; at the end of a window, the one with which the
/// next day begins.
pub open spec fn settled(
    step: int,
    raw: Seq<char>,
    instant: Option<TimeView>,
    day: Option<int>,
    is_to: bool,
) -> Result<Option<TimeView>, ErrorView> {
    match (instant, day) {
        (Some(instant), _) => Ok(Some(instant)),
        (None, Some(day)) => if !is_to {
            Ok(Some(midnight(day)))
        } else if day < LAST_DAY {
            Ok(Some(midnight(day + 1)))
        } else {
            Err(ErrorView::BadTime { step, value: raw })
        },
        (None, None) => Err(ErrorView::BadTime { step, value: raw }),
    }
}

/// What a bound of the window of step `step` stands for.
pub open spec fn bound(step: int, raw: Option<Seq<char>>, is_to: bool) -> Result<
    Option<TimeView>,
    ErrorView,
> {
    match raw {
        None => Ok(None),
        Some(raw) => settled(
            step,
            raw,
            rfc3339_instant(raw),
            read_day(raw, "%Y-%m-%d"@),
            is_to,
        ),
    }
}

/// Read a text in RFC 3339.
///
/// Trusted: what `chrono::DateTime::parse_from_rfc3339` reads, taken to UTC,
/// is a function of the text.
#[verifier::external_body]
fn parse_rfc3339(raw: &String) -> (instant: Option<Timestamp>)
    ensures
        instant.deep_view() == rfc3339_instant(raw@),
{
    chrono::DateTime::parse_from_rfc3339(raw).ok().map(
        |read| Timestamp::from_chrono(read.to_utc().naive_utc()),
    )
}

/// Read a date in a format.
///
/// Trusted: what `chrono::NaiveDate::parse_from_str` reads is a function of
/// the text and the format, and is a day that `chrono` can hold.
#[verifier::external_body]
fn parse_day(raw: &String, format: &str) -> (day: Option<i32>)
    ensures
        day is Some <==> read_day(raw@, format@) is Some,
        day matches Some(d) ==> read_day(raw@, format@) == Some(d as int) && FIRST_DAY <= d
            <= LAST_DAY,
{
    chrono::NaiveDate::parse_from_str(raw, format).ok().map(|date| date.to_epoch_days())
}

/// The day after a day.
///
/// Trusted: `chrono::NaiveDate::succ_opt` gives the next calendar day, and
/// none after the last day that `chrono` can hold.
#[verifier::external_body]
fn day_after(day: i32) -> (next: Option<i32>)
    requires
        FIRST_DAY <= day <= LAST_DAY,
    ensures
        next is Some <==> day < LAST_DAY,
        next matches Some(n) ==> n == day + 1,
{
    let date = chrono::NaiveDate::from_epoch_days(day)?;
    date.succ_opt().map(|next| next.to_epoch_days())
}

/// The midnight with which a day begins.
///
/// Trusted: `chrono::NaiveDate::and_hms_opt` with hour, minute and second 0 is
/// the midnight of the day, 86400 seconds per day after 1 January 1970.
#[verifier::external_body]
fn midnight_of(day: i32) -> (instant: Option<Timestamp>)
    requires
        FIRST_DAY <= day <= LAST_DAY,
    ensures
        instant.deep_view() == Some(midnight(day as int)),
{
    let date = chrono::NaiveDate::from_epoch_days(day)?;
    date.and_hms_opt(0, 0, 0).map(|start| Timestamp::from_chrono(start))
}

/// What the bound of a window of step `step` stands for, where `instant` and
/// `day` are what it is read as.
pub fn settle(
    step: usize,
    raw: &String,
    instant: Option<Timestamp>,
    day: Option<i32>,
    is_to: bool,
) -> (outcome: Result<Option<Timestamp>, TransformError>)
    requires
        day matches Some(d) ==> FIRST_DAY <= d <= LAST_DAY,
    ensures
        ({
            let expected = settled(
                step as int,
                raw@,
                instant.deep_view(),
                match day {
                    Some(d) => Some(d as int),
                    None => None,
                },
                is_to,
            );
            &&& outcome matches Ok(found) ==> expected == Ok::<Option<TimeView>, ErrorView>(
                found.deep_view(),
            )
            &&& outcome matches Err(error) ==> expected == Err::<Option<TimeView>, ErrorView>(
                error@,
            )
        }),
{
    if instant.is_some() {
        return Ok(instant);
    }
    let refused = TransformError::BadTime { step, value: raw.clone() };
    let day: i32 = match day {
        Some(day) => day,
        None => {
            return Err(refused);
        },
    };
    let start = if is_to {
        day_after(day)
    } else {
        Some(day)
    };
    match start {
        Some(start) => match midnight_of(start) {
            Some(instant) => Ok(Some(instant)),
            None => Err(refused),
        },
        None => Err(refused),
    }
}

/// Read a bound of the window of step `step`: RFC 3339, or a date. A `from`
/// date means that midnight, a `to` date the following midnight, so that the
/// named day is inside the half-open window.
pub fn parse_bound(step: usize, raw: &Option<String>, is_to: bool) -> (outcome: Result<
    Option<Timestamp>,
    TransformError,
>)
    ensures
        outcome matches Ok(found) ==> bound(step as int, raw.deep_view(), is_to) == Ok::<
            Option<TimeView>,
            ErrorView,
        >(found.deep_view()),
        outcome matches Err(error) ==> bound(step as int, raw.deep_view(), is_to) == Err::<
            Option<TimeView>,
            ErrorView,
        >(error@),
{
    match raw {
        None => Ok(None),
        Some(raw) => settle(step, raw, parse_rfc3339(raw), parse_day(raw, "%Y-%m-%d"), is_to),
    }
}

} // verus!
