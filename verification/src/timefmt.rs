//! Formatting the reconciliation timestamp for display: a Unix time
//! rendered as a local calendar date and clock time (UTC+9), as
//! "Last updated: yyyy/MM/dd hh:mm".

use vstd::prelude::*;
use crate::cache::TrackCache;
use crate::dates::{pad_num, zero_pad};
use crate::text::{chars_of, dec_u64, spec_dec, string_of};

verus! {

/// The display offset from UTC, in seconds (UTC+9).
pub const TZ_OFFSET_SECS: u64 = 32400;

/// The last Unix second this formatter accepts: adding the display
/// offset to anything later would overflow the machine integer.
pub const MAX_DISPLAY_TS: u64 = u64::MAX - TZ_OFFSET_SECS;

/// Whether a year is a leap year.
pub open spec fn spec_leap(y: nat) -> bool {
    (y % 4 == 0 && y % 100 != 0) || y % 400 == 0
}

/// The days of one year.
pub open spec fn days_in_year(y: nat) -> nat {
    if spec_leap(y) {
        366
    } else {
        365
    }
}

/// The days of one month; an out-of-range month counts 30, which the
/// walk below never produces.
pub open spec fn spec_days_in_month(y: nat, m: nat) -> nat {
    if m == 1 || m == 3 || m == 5 || m == 7 || m == 8 || m == 10 || m == 12 {
        31
    } else if m == 4 || m == 6 || m == 9 || m == 11 {
        30
    } else if m == 2 {
        if spec_leap(y) {
            29
        } else {
            28
        }
    } else {
        30
    }
}

/// Walks whole years forward from `year` until fewer than a year of days
/// remains: the year reached and the days left in it.
pub open spec fn year_walk(days: nat, year: nat) -> (nat, nat)
    decreases days,
{
    if days < days_in_year(year) {
        (year, days)
    } else {
        year_walk((days - days_in_year(year)) as nat, year + 1)
    }
}

/// Walks whole months forward from `month` until fewer than a month of
/// days remains: the month reached and the days left in it.
pub open spec fn month_walk(days: nat, year: nat, month: nat) -> (nat, nat)
    decreases days,
{
    if days < spec_days_in_month(year, month) {
        (month, days)
    } else {
        month_walk((days - spec_days_in_month(year, month)) as nat, year, month + 1)
    }
}

/// The display text owed to a reconciliation timestamp.
pub open spec fn fmt_last_updated(ts: u64) -> Seq<char> {
    let local = ts + TZ_OFFSET_SECS;
    let secs_in_day = local % 86400;
    let hour = secs_in_day / 3600;
    let minute = (secs_in_day % 3600) / 60;
    let days = local / 86400;
    let yw = year_walk(days as nat, 1970);
    let mw = month_walk(yw.1, yw.0, 1);
    "Last updated: "@ + spec_dec(yw.0) + seq!['/'] + zero_pad(spec_dec(mw.0), 2) + seq!['/']
        + zero_pad(spec_dec((mw.1 + 1) as nat), 2) + seq![' '] + zero_pad(spec_dec(hour as nat), 2)
        + seq![':'] + zero_pad(spec_dec(minute as nat), 2)
}

/// Whether a year is a leap year.
fn is_leap_year(y: u64) -> (r: bool)
    ensures
        r == spec_leap(y as nat),
{
    (y % 4 == 0 && y % 100 != 0) || y % 400 == 0
}

/// The days of one month.
fn days_in_month(y: u64, m: u64) -> (r: u64)
    ensures
        r == spec_days_in_month(y as nat, m as nat),
        28 <= r <= 31,
{
    match m {
        1 | 3 | 5 | 7 | 8 | 10 | 12 => 31,
        4 | 6 | 9 | 11 => 30,
        2 => if is_leap_year(y) {
            29
        } else {
            28
        },
        _ => 30,
    }
}

impl TrackCache {
    /// The time of the last successful reconciliation, rendered for
    /// display in local time, or nothing where no reconciliation ever
    /// succeeded.
    pub fn format_last_updated(&self) -> (r: Option<String>)
        requires
            self.last_updated matches Some(ts) ==> ts <= MAX_DISPLAY_TS,
        ensures
            match (r, self.last_updated) {
                (Some(text), Some(ts)) => text@ == fmt_last_updated(ts),
                (None, None) => true,
                _ => false,
            },
    {
        let ts = match self.last_updated {
            Some(ts) => ts,
            None => {
                return None;
            },
        };
        let local = ts + TZ_OFFSET_SECS;
        let secs_in_day = local % 86400;
        let hour = secs_in_day / 3600;
        let minute = (secs_in_day % 3600) / 60;
        let mut days = local / 86400;
        let ghost days0 = days as nat;
        let mut year: u64 = 1970;
        loop
            invariant
                1970 <= year,
                year_walk(days0, 1970) == year_walk(days as nat, year as nat),
                days <= days0 <= u64::MAX / 86400,
                year + days <= 1970 + days0,
            ensures
                year_walk(days0, 1970) == (year as nat, days as nat),
                days < 366,
                1970 <= year <= 1970 + days0,
            decreases days,
        {
            let diy: u64 = if is_leap_year(year) {
                366
            } else {
                365
            };
            if days < diy {
                proof {
                    assert(year_walk(days as nat, year as nat) == (year as nat, days as nat));
                }
                break;
            }
            days = days - diy;
            year = year + 1;
        }
        let ghost yfinal = year as nat;
        let ghost mdays0 = days as nat;
        let mut month: u64 = 1;
        loop
            invariant
                1 <= month,
                year == yfinal,
                month_walk(mdays0, yfinal, 1) == month_walk(days as nat, yfinal, month as nat),
                days <= mdays0 < 366,
                month + days <= 1 + mdays0,
            ensures
                month_walk(mdays0, yfinal, 1) == (month as nat, days as nat),
                days <= mdays0 < 366,
                1 <= month <= 1 + mdays0,
                year == yfinal,
            decreases days,
        {
            let dim = days_in_month(year, month);
            if days < dim {
                proof {
                    assert(month_walk(days as nat, yfinal, month as nat) == (
                        month as nat,
                        days as nat,
                    ));
                }
                break;
            }
            days = days - dim;
            month = month + 1;
        }
        let day = days + 1;
        let mut out = chars_of("Last updated: ");
        let mut y = dec_u64(year);
        out.append(&mut y);
        out.push('/');
        proof {
            assert(day <= mdays0 + 1);
            assert(hour < 24 && minute < 60);
        }
        let mut m = pad_num(month as u32, 2);
        out.append(&mut m);
        out.push('/');
        let mut d = pad_num(day as u32, 2);
        out.append(&mut d);
        out.push(' ');
        let mut h = pad_num(hour as u32, 2);
        out.append(&mut h);
        out.push(':');
        let mut mi = pad_num(minute as u32, 2);
        out.append(&mut mi);
        proof {
            assert(out@ =~= fmt_last_updated(ts));
        }
        Some(string_of(out.as_slice()))
    }
}

} // verus!
