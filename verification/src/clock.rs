//! The local calendar, as the `chrono` crate computes it.
use vstd::prelude::*;
use crate::model::{local_calendar_of, CalendarTime, GitTime, valid_calendar, valid_git_time};
#[allow(unused_imports)]
use chrono::{Datelike, Timelike};

verus! {

/// The calendar fields, in the machine's local time zone, of a commit time.
///
/// Calls `chrono`: `NaiveDateTime::from_timestamp`, `FixedOffset::east`,
/// `DateTime::from_utc` and `with_timezone(&Local)`, then reads `year`,
/// `month0`, `day`, `weekday().num_days_from_monday()` and `hour`.
/// `from_timestamp` and `from_utc` keep the instant, whatever the commit's
/// own offset, and `with_timezone` shows it with the offset that the local
/// zone has at that instant, a `FixedOffset`, which chrono keeps strictly
/// within a day either way. The contract states that: the fields are the
/// calendar of the instant moved by some offset under a day, in the ranges
/// of chrono's dates. Which offset is left unstated: the local zone is read
/// from the environment. The requirement excludes the inputs on which
/// `from_timestamp` and `east` panic, and keeps the local date, less than a
/// day away, inside chrono's range.
#[verifier::external_body]
#[allow(deprecated)]
pub(crate) fn dt_from_gittime(time: &GitTime) -> (c: CalendarTime)
    requires
        valid_git_time(*time),
    ensures
        valid_calendar(c),
        local_calendar_of(time.seconds as int, c),
{
    let naive_dt = chrono::NaiveDateTime::from_timestamp(time.seconds, 0);
    let tz = chrono::FixedOffset::east(time.offset_minutes * 60);
    let dt = chrono::DateTime::<chrono::FixedOffset>::from_utc(naive_dt, tz).with_timezone(&chrono::Local);
    CalendarTime {
        year: dt.year(),
        month0: dt.month0(),
        day: dt.day(),
        weekday: dt.weekday().num_days_from_monday(),
        hour: dt.hour(),
    }
}

/// The calendar fields of the current instant in the machine's local time
/// zone.
///
/// Calls `chrono::Local::now`. The result depends on the clock and the
/// environment, so the contract states only the ranges of the fields.
#[verifier::external_body]
pub(crate) fn local_now() -> (c: CalendarTime)
    ensures
        valid_calendar(c),
{
    let dt = chrono::Local::now();
    CalendarTime {
        year: dt.year(),
        month0: dt.month0(),
        day: dt.day(),
        weekday: dt.weekday().num_days_from_monday(),
        hour: dt.hour(),
    }
}

} // verus!
