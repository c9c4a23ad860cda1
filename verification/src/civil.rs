//! The proleptic Gregorian calendar.

use vstd::prelude::*;

verus! {

/// Whether the year `y` has a 29th of February.
pub open spec fn is_leap(y: int) -> bool {
    y % 4 == 0 && (y % 100 != 0 || y % 400 == 0)
}

/// How many days the year `y` has.
pub open spec fn year_len(y: int) -> int {
    if is_leap(y) {
        366
    } else {
        365
    }
}

/// How many days the month `m` of the year `y` has.
pub open spec fn month_len(y: int, m: int) -> int {
    if m == 2 {
        if is_leap(y) {
            29
        } else {
            28
        }
    } else if m == 4 || m == 6 || m == 9 || m == 11 {
        30
    } else {
        31
    }
}

/// How many days lie between the 1st of January 1970 and that of the year `y`,
/// negative for an earlier year.
pub open spec fn year_start(y: int) -> int
    decreases
            if y >= 1970 {
                y - 1970
            } else {
                1970 - y
            },
{
    if y == 1970 {
        0
    } else if y > 1970 {
        year_start(y - 1) + year_len(y - 1)
    } else {
        year_start(y + 1) - year_len(y)
    }
}

/// How many days of the year `y` lie before its month `m`.
pub open spec fn month_start(y: int, m: int) -> int
    decreases m,
{
    if m <= 1 {
        0
    } else {
        month_start(y, m - 1) + month_len(y, m - 1)
    }
}

/// How many days lie between the 1st of January 1970 and the `d`-th day of the
/// month `m` of the year `y`. A day past the end of the month runs on into the
/// next one.
pub open spec fn day_number(y: int, m: int, d: int) -> int {
    year_start(y) + month_start(y, m) + d - 1
}

/// The seconds between the start of 1970 and a point in time, both in UTC.
pub open spec fn epoch_second(y: int, m: int, d: int, h: int, mi: int, s: int) -> int {
    day_number(y, m, d) * 86400 + h * 3600 + mi * 60 + s
}

/// How many leap years there are from the year 1 up to the year before `y`,
/// counted back for an earlier `y`.
spec fn leaps(y: int) -> int {
    (y - 1) / 4 - (y - 1) / 100 + (y - 1) / 400
}

/// The start of a year in closed form.
proof fn lemma_year_start(y: int)
    ensures
        year_start(y) == 365 * (y - 1970) + leaps(y) - leaps(1970),
    decreases
            if y >= 1970 {
                y - 1970
            } else {
                1970 - y
            },
{
    if y > 1970 {
        lemma_year_start(y - 1);
        lemma_leaps_step(y - 1);
    } else if y < 1970 {
        lemma_year_start(y + 1);
        lemma_leaps_step(y);
    }
}

/// A leap year adds one to the count.
proof fn lemma_leaps_step(y: int)
    ensures
        leaps(y + 1) == leaps(y) + (if is_leap(y) {
            1int
        } else {
            0int
        }),
{
    lemma_quotient_step_4(y);
    lemma_quotient_step_100(y);
    lemma_quotient_step_400(y);
    lemma_multiples(y);
}

/// Dividing by 4 gives one more exactly at its multiples.
proof fn lemma_quotient_step_4(y: int)
    ensures
        y / 4 == (y - 1) / 4 + (if y % 4 == 0 {
            1int
        } else {
            0int
        }),
{
}

/// Dividing by 100 gives one more exactly at its multiples.
proof fn lemma_quotient_step_100(y: int)
    ensures
        y / 100 == (y - 1) / 100 + (if y % 100 == 0 {
            1int
        } else {
            0int
        }),
{
}

/// Dividing by 400 gives one more exactly at its multiples.
proof fn lemma_quotient_step_400(y: int)
    ensures
        y / 400 == (y - 1) / 400 + (if y % 400 == 0 {
            1int
        } else {
            0int
        }),
{
}

/// A multiple of 400 is one of 100, and a multiple of 100 is one of 4.
proof fn lemma_multiples(y: int)
    ensures
        y % 400 == 0 ==> y % 100 == 0,
        y % 100 == 0 ==> y % 4 == 0,
{
}

/// The days before each month of a year.
proof fn lemma_month_start(y: int, m: int)
    requires
        1 <= m <= 12,
    ensures
        m == 1 ==> month_start(y, m) == 0,
        m == 2 ==> month_start(y, m) == 31,
        m > 2 ==> month_start(y, m) == 59 + (if is_leap(y) {
            1int
        } else {
            0int
        }) + (153 * (m - 3) + 2) / 5,
{
    reveal_with_fuel(month_start, 13);
}

/// The days between the start of 1970 and a day, counted in eras of 400 years
/// that begin in March.
pub fn days_from_civil(y: i32, m: u32, d: u32) -> (r: i64)
    requires
        1 <= m <= 12,
        1 <= d <= 31,
    ensures
        r == day_number(y as int, m as int, d as int),
        -1_000_000_000_000 < r < 1_000_000_000_000,
{
    let yy: i64 = if m <= 2 {
        (y as i64) - 1
    } else {
        y as i64
    };
    let era: i64 = if yy >= 0 {
        yy / 400
    } else {
        -((399 - yy) / 400)
    };
    let yoe: i64 = yy - era * 400;
    let mp: i64 = if m > 2 {
        (m as i64) - 3
    } else {
        (m as i64) + 9
    };
    let doy: i64 = (153 * mp + 2) / 5 + (d as i64) - 1;
    assert(0 <= yoe < 400);
    let doe: i64 = yoe * 365 + yoe / 4 - yoe / 100 + doy;
    proof {
        lemma_year_start(y as int);
        lemma_month_start(y as int, m as int);
        lemma_leaps_step(y as int);
        let e = era as int;
        let o = yoe as int;
        assert(yy == 400 * e + o);
        assert((yy as int) / 4 == 100 * e + o / 4);
        assert((yy as int) / 100 == 4 * e + o / 100);
        assert((yy as int) / 400 == e);
    }
    era * 146097 + doe - 719468
}

} // verus!
