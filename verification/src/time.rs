//! Instants as seconds since the Unix epoch, and the whole days between them.

use vstd::prelude::*;

verus! {

/// Seconds in a day.
pub const SECONDS_PER_DAY: i64 = 86400;

/// The first second that is a date: the start of 1 January of the year
/// -262143, which is 96 465 292 days before the epoch.
pub const FIRST_SECOND: i64 = -8334601228800;

/// The last second that is a date: the end of 31 December of the year
/// 262142, which is 95 026 236 days after the epoch.
pub const LAST_SECOND: i64 = 8210266876799;

/// Whether a number of seconds since the epoch is a date.
pub open spec fn is_date(seconds: int) -> bool {
    FIRST_SECOND <= seconds <= LAST_SECOND
}

/// Calls `chrono::DateTime::from_timestamp` with the seconds and no
/// nanoseconds, and says whether it gave a date. That function takes the day
/// of the seconds, counted from the epoch, and gives a date exactly where
/// the day lies in a year from -262143 to 262142, the years of
/// `NaiveDate::MIN` and `NaiveDate::MAX`: these are the seconds from
/// `FIRST_SECOND` to `LAST_SECOND`.
#[verifier::external_body]
pub(crate) fn timestamp_is_date(seconds: i64) -> (yes: bool)
    ensures
        yes == is_date(seconds as int),
{
    chrono::DateTime::from_timestamp(seconds, 0).is_some()
}

/// The whole days from `earlier` to `later`, rounded towards zero; negative
/// where `later` comes first.
pub open spec fn days_between(earlier: int, later: int) -> int {
    let seconds = later - earlier;
    if seconds >= 0 {
        seconds / (SECONDS_PER_DAY as int)
    } else {
        -((-seconds) / (SECONDS_PER_DAY as int))
    }
}

/// The whole days from `earlier` to `later`.
pub fn whole_days(earlier: i64, later: i64) -> (days: i64)
    ensures
        days == days_between(earlier as int, later as int),
{
    let seconds: i128 = later as i128 - earlier as i128;
    if seconds >= 0 {
        (seconds / 86400) as i64
    } else {
        (-((-seconds) / 86400)) as i64
    }
}

} // verus!
