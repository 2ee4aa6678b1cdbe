use vstd::prelude::*;

use crate::graph::CommitTime;

verus! {

/// Days from 1970-01-01 to the given day of the proleptic Gregorian calendar.
pub open spec fn days_from_civil(year: int, month: int, day: int) -> int {
    let y = if month <= 2 { year - 1 } else { year };
    let era = y / 400;
    let yoe = y % 400;
    let mp = if month > 2 { month - 3 } else { month + 9 };
    let doy = (153 * mp + 2) / 5 + day - 1;
    let doe = yoe * 365 + yoe / 4 - yoe / 100 + doy;
    era * 146097 + doe - 719468
}

/// The Unix timestamp of midnight UTC on the first day of a month, or nothing
/// where the month is not one of the twelve or the year lies outside
/// -262143 to 262142, the dates that can be represented.
pub open spec fn utc_month_start(year: i32, month: u32) -> Option<i64> {
    if 1 <= month <= 12 && -262143 <= year <= 262142 {
        Some((days_from_civil(year as int, month as int, 1) * 86400) as i64)
    } else {
        None
    }
}

/// Relies on chrono's `NaiveDate::from_ymd_opt` (the date, where valid),
/// `and_hms_opt(0, 0, 0)`, `and_utc` and `timestamp`: the Unix timestamp of
/// midnight UTC on the first day of the month.
#[verifier::external_body]
fn month_start(year: i32, month: u32) -> (r: Option<i64>)
    ensures
        r == utc_month_start(year, month),
{
    match chrono::NaiveDate::from_ymd_opt(year, month, 1) {
        Some(d) => match d.and_hms_opt(0, 0, 0) {
            Some(t) => Some(t.and_utc().timestamp()),
            None => None,
        },
        None => None,
    }
}

/// The month a report starts in, for a report made on `day` of `month` of
/// `year`: early in a month (before the fifth) the previous month, else the
/// current one.
pub open spec fn first_day_month(year: int, month: int, day: int) -> (int, int) {
    if day < 5 {
        if month == 1 {
            (year - 1, 12)
        } else {
            (year, month - 1)
        }
    } else {
        (year, month)
    }
}

/// The year and month whose first day starts the report made on the given
/// date.
pub fn get_target_first_day(year: i32, month: u32, day: u32) -> (r: (i32, u32))
    requires
        1 <= month <= 12,
        year > i32::MIN,
    ensures
        (r.0 as int, r.1 as int) == first_day_month(year as int, month as int, day as int),
        1 <= r.1 <= 12,
{
    if day < 5 {
        if month == 1 {
            (year - 1, 12)
        } else {
            (year, month - 1)
        }
    } else {
        (year, month)
    }
}

/// The window of a report made on the given date: from midnight UTC on the
/// first day of its starting month, or nothing where that day cannot be
/// represented.
pub fn report_window(year: i32, month: u32, day: u32) -> (r: Option<CommitTime>)
    requires
        1 <= month <= 12,
        year > i32::MIN,
    ensures
        ({
            let (y, m) = first_day_month(year as int, month as int, day as int);
            match utc_month_start(y as i32, m as u32) {
                Some(s) => r == Some(CommitTime { seconds: s, offset_minutes: 0 }),
                None => r is None,
            }
        }),
{
    let (y, m) = get_target_first_day(year, month, day);
    match month_start(y, m) {
        Some(s) => Some(CommitTime { seconds: s, offset_minutes: 0 }),
        None => None,
    }
}

} // verus!
