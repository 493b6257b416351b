//! Dates out of seconds.

use vstd::prelude::*;

verus! {

/// Whether a year has a 29th of February.
pub open spec fn is_leap(y: int) -> bool {
    (y % 4 == 0 && y % 100 != 0) || y % 400 == 0
}

/// How many days a month has.
pub open spec fn month_len(y: int, m: int) -> int {
    if m == 2 {
        if is_leap(y) {
            29
        } else {
            28
        }
    } else if m == 4 || m == 6 || m == 9 || m == 11 {
        30
    } else {
        31
    }
}

/// Whether there is such a day.
pub open spec fn is_date(y: int, m: int, d: int) -> bool {
    1 <= m <= 12 && 1 <= d <= month_len(y, m)
}

/// The day after a day.
pub open spec fn next_day(y: int, m: int, d: int) -> (int, int, int) {
    if d < month_len(y, m) {
        (y, m, d + 1)
    } else if m < 12 {
        (y, m + 1, 1)
    } else {
        (y + 1, 1, 1)
    }
}

/// How many days come before the month in its year.
pub open spec fn before_month(y: int, m: int) -> int
    decreases m,
{
    if m <= 1 {
        0
    } else {
        before_month(y, m - 1) + month_len(y, m - 1)
    }
}

/// How many days come before the year, but for a constant.
pub open spec fn before_year(y: int) -> int {
    365 * y + (y - 1) / 4 - (y - 1) / 100 + (y - 1) / 400
}

/// The number of a day, counted from the first of January 1970.
pub open spec fn day_number(y: int, m: int, d: int) -> int {
    before_year(y) + before_month(y, m) + d - 1 - before_year(1970)
}

proof fn lemma_before_month(y: int)
    ensures
        before_month(y, 1) == 0,
        before_month(y, 2) == 31,
        before_month(y, 3) == 31 + month_len(y, 2),
        before_month(y, 4) == 62 + month_len(y, 2),
        before_month(y, 5) == 92 + month_len(y, 2),
        before_month(y, 6) == 123 + month_len(y, 2),
        before_month(y, 7) == 153 + month_len(y, 2),
        before_month(y, 8) == 184 + month_len(y, 2),
        before_month(y, 9) == 215 + month_len(y, 2),
        before_month(y, 10) == 245 + month_len(y, 2),
        before_month(y, 11) == 276 + month_len(y, 2),
        before_month(y, 12) == 306 + month_len(y, 2),
{
    reveal_with_fuel(before_month, 13);
}

proof fn lemma_year(y: int)
    ensures
        before_year(y + 1) == before_year(y) + 365 + if is_leap(y) {
            1int
        } else {
            0int
        },
        before_year(y) + 31 + month_len(y, 2) == 365 * y + y / 4 - y / 100 + y / 400 + 59,
{
}

/// Days are numbered one by one, from the first of January 1970 on.
pub proof fn law_days_are_numbered(y: int, m: int, d: int)
    requires
        is_date(y, m, d),
    ensures
        day_number(1970, 1, 1) == 0,
        ({
            let (y2, m2, d2) = next_day(y, m, d);
            is_date(y2, m2, d2) && day_number(y2, m2, d2) == day_number(y, m, d) + 1
        }),
{
    lemma_before_month(y);
    lemma_before_month(1970);
    lemma_before_month(y + 1);
    lemma_year(y);
}

proof fn lemma_year_bounds(y: int, m: int, d: int)
    requires
        is_date(y, m, d),
    ensures
        before_year(y) <= before_year(y) + before_month(y, m) + d - 1 < before_year(y + 1),
{
    lemma_before_month(y);
    lemma_year(y);
}

proof fn lemma_years_grow(a: int, b: int)
    requires
        a <= b,
    ensures
        before_year(a) <= before_year(b),
    decreases b - a,
{
    if a < b {
        lemma_years_grow(a, b - 1);
        lemma_year(b - 1);
    }
}

/// No two days have one number.
pub proof fn law_days_differ(y: int, m: int, d: int, y2: int, m2: int, d2: int)
    requires
        is_date(y, m, d),
        is_date(y2, m2, d2),
        day_number(y, m, d) == day_number(y2, m2, d2),
    ensures
        y == y2,
        m == m2,
        d == d2,
{
    lemma_year_bounds(y, m, d);
    lemma_year_bounds(y2, m2, d2);
    if y < y2 {
        lemma_years_grow(y + 1, y2);
    } else if y2 < y {
        lemma_years_grow(y2 + 1, y);
    }
    lemma_before_month(y);
}

/// What is not before 1970 is in 1970 or a later year.
pub proof fn lemma_not_before_1970(y: int, m: int, d: int)
    requires
        is_date(y, m, d),
        day_number(y, m, d) >= 0,
    ensures
        y >= 1970,
{
    lemma_year_bounds(y, m, d);
    if y < 1970 {
        lemma_years_grow(y + 1, 1970);
    }
}

/// The number of the first of March of a year, but for a constant.
spec fn march(y: int) -> int {
    365 * y + y / 4 - y / 100 + y / 400
}

proof fn lemma_march_year(within: int, era: int, c: int, q: int, k: int)
    requires
        0 <= within < 146097,
        c == if within / 36524 < 3 {
            within / 36524
        } else {
            3
        },
        q == (within - c * 36524) / 1461,
        k == ({
            let r2 = within - c * 36524 - q * 1461;
            if r2 / 365 < 3 {
                r2 / 365
            } else {
                3
            }
        }),
    ensures
        0 <= c <= 3,
        0 <= q <= 24,
        0 <= k <= 3,
        ({
            let doy = within - c * 36524 - q * 1461 - k * 365;
            let y0 = 100 * c + 4 * q + k + 400 * era;
            &&& 0 <= doy <= 365
            &&& doy == 365 ==> is_leap(y0 + 1)
            &&& march(y0) + doy == 146097 * era + within
        }),
{
    let y0 = 100 * c + 4 * q + k + 400 * era;
    assert(y0 / 4 == 25 * c + q + 100 * era);
    assert(y0 / 100 == c + 4 * era);
    assert(y0 / 400 == era);
    let doy = within - c * 36524 - q * 1461 - k * 365;
    if doy == 365 {
        assert(k == 3);
        if q == 24 {
            assert(c == 3);
            assert(y0 + 1 == 400 * (era + 1));
        } else {
            let y1 = 100 * c + 4 * (q + 1) + 400 * era;
            assert(y0 + 1 == y1);
            assert(y1 / 100 == c + 4 * era);
        }
    }
}

/// The date in the year that begins with the first of March of `y0`.
spec fn in_march_year(y0: int, doy: int) -> (int, int, int) {
    let mp = (5 * doy + 2) / 153;
    let m = if mp < 10 {
        mp + 3
    } else {
        mp - 9
    };
    (
        if m <= 2 {
            y0 + 1
        } else {
            y0
        },
        m,
        doy - (153 * mp + 2) / 5 + 1,
    )
}

proof fn lemma_month(y0: int, doy: int)
    requires
        0 <= doy <= 365,
        doy == 365 ==> is_leap(y0 + 1),
    ensures
        ({
            let (y, m, d) = in_march_year(y0, doy);
            is_date(y, m, d) && day_number(y, m, d) == march(y0) + doy - 719468
        }),
{
    lemma_before_month(y0);
    lemma_before_month(y0 + 1);
    lemma_year(y0);
    let mp = (5 * doy + 2) / 153;
    assert(0 <= mp <= 11);
    if mp == 0 {
    } else if mp == 1 {
    } else if mp == 2 {
    } else if mp == 3 {
    } else if mp == 4 {
    } else if mp == 5 {
    } else if mp == 6 {
    } else if mp == 7 {
    } else if mp == 8 {
    } else if mp == 9 {
    } else if mp == 10 {
    } else {
    }
}

fn split_days(n: i64) -> (r: (i64, i64))
    ensures
        n == 86400 * r.0 + r.1,
        0 <= r.1 < 86400,
{
    let x: i64 = n % 86400;
    if x < 0 {
        (n / 86400 - 1, x + 86400)
    } else {
        (n / 86400, x)
    }
}

fn split_eras(n: i64) -> (r: (i64, i64))
    ensures
        n == 146097 * r.0 + r.1,
        0 <= r.1 < 146097,
{
    let x: i64 = n % 146097;
    if x < 0 {
        (n / 146097 - 1, x + 146097)
    } else {
        (n / 146097, x)
    }
}

/// The date and the time of day, in UTC, of a number of seconds since the
/// beginning of 1970.
pub fn civil_from_unix(secs: i64) -> (r: (i64, u32, u32, u32, u32, u32))
    ensures
        is_date(r.0 as int, r.1 as int, r.2 as int),
        r.3 < 24,
        r.4 < 60,
        r.5 < 60,
        secs == 86400 * day_number(r.0 as int, r.1 as int, r.2 as int) + 3600 * r.3 + 60 * r.4
            + r.5,
{
    let (days, rem) = split_days(secs);
    let h: i64 = rem / 3600;
    let mi: i64 = (rem % 3600) / 60;
    let s: i64 = rem % 60;
    assert(rem == 3600 * h + 60 * mi + s);
    // Days since the first of March of the year 0, so that a leap day comes last
    // in its year, by periods of 400 years.
    let z: i64 = days + 719468;
    let (era, within) = split_eras(z);
    let c: i64 = if within / 36524 < 3 {
        within / 36524
    } else {
        3
    };
    let r1: i64 = within - c * 36524;
    let q: i64 = r1 / 1461;
    let r2: i64 = r1 - q * 1461;
    let k: i64 = if r2 / 365 < 3 {
        r2 / 365
    } else {
        3
    };
    let doy: i64 = r2 - k * 365;
    let yoe: i64 = 100 * c + 4 * q + k;
    let y0: i64 = yoe + era * 400;
    proof {
        lemma_march_year(within as int, era as int, c as int, q as int, k as int);
    }
    let mp: i64 = (5 * doy + 2) / 153;
    let d: i64 = doy - (153 * mp + 2) / 5 + 1;
    let m: i64 = if mp < 10 {
        mp + 3
    } else {
        mp - 9
    };
    let y: i64 = if m <= 2 {
        y0 + 1
    } else {
        y0
    };
    proof {
        lemma_month(y0 as int, doy as int);
    }
    (y, m as u32, d as u32, h as u32, mi as u32, s as u32)
}

} // verus!
