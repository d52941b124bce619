use vstd::prelude::*;
use chrono::TimeZone;

verus! {

pub open spec fn is_leap_year(y: int) -> bool {
    (y % 4 == 0 && y % 100 != 0) || y % 400 == 0
}

pub open spec fn days_in_month(y: int, m: int) -> int {
    if m == 2 {
        if is_leap_year(y) {
            29
        } else {
            28
        }
    } else if m == 4 || m == 6 || m == 9 || m == 11 {
        30
    } else {
        31
    }
}

/// A day of the proleptic Gregorian calendar, within the years a date can
/// hold.
pub open spec fn valid_date(y: int, m: int, d: int) -> bool {
    -262143 <= y <= 262142 && 1 <= m <= 12 && 1 <= d <= days_in_month(y, m)
}

/// Days from 1970-01-01 to the given day.
pub open spec fn days_from_civil(y: int, m: int, d: int) -> int {
    let yy = if m <= 2 { y - 1 } else { y };
    let era = yy / 400;
    let yoe = yy - era * 400;
    let mp = if m > 2 { m - 3 } else { m + 9 };
    let doy = (153 * mp + 2) / 5 + d - 1;
    let doe = yoe * 365 + yoe / 4 - yoe / 100 + doy;
    era * 146097 + doe - 719468
}

/// Seconds since the Unix epoch at midnight UTC of the given day.
pub open spec fn midnight_utc(y: int, m: int, d: int) -> int {
    days_from_civil(y, m, d) * 86400
}

/// Relies on chrono's `Utc.with_ymd_and_hms` and `DateTime::timestamp`: a day
/// that exists gives one instant, midnight UTC, as seconds since the epoch;
/// any other gives none.
#[verifier::external_body]
pub fn utc_midnight(year: i32, month: u32, day: u32) -> (r: Option<i64>)
    ensures
        r == (if valid_date(year as int, month as int, day as int) {
            Some(midnight_utc(year as int, month as int, day as int) as i64)
        } else {
            None::<i64>
        }),
{
    match chrono::Utc.with_ymd_and_hms(year, month, day, 0, 0, 0) {
        chrono::LocalResult::Single(t) => Some(t.timestamp()),
        _ => None,
    }
}

} // verus!
