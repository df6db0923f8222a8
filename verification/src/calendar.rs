//! Dates of the Gregorian calendar as day numbers, and the billing periods that begin on a fixed day
//! of the month.

use vstd::prelude::*;

verus! {

/// A year with a twenty-ninth of February.
pub open spec fn leap(y: int) -> bool {
    y % 4 == 0 && (y % 100 != 0 || y % 400 == 0)
}

/// The days of a month.
pub open spec fn month_days(y: int, m: int) -> int {
    if m == 2 {
        if leap(y) {
            29
        } else {
            28
        }
    } else if m == 4 || m == 6 || m == 9 || m == 11 {
        30
    } else {
        31
    }
}

/// The days of a year before a month.
pub open spec fn days_before_month(y: int, m: int) -> int
    decreases m,
{
    if m <= 1 {
        0
    } else {
        days_before_month(y, m - 1) + month_days(y, m - 1)
    }
}

/// The days from the first of January of the year 1 to that of another year.
pub open spec fn days_before_year(y: int) -> int {
    365 * (y - 1) + (y - 1) / 4 - (y - 1) / 100 + (y - 1) / 400
}

/// The number of a date, counted in days from the first of January 1970.
pub open spec fn day_number(y: int, m: int, d: int) -> int {
    days_before_year(y) - 719162 + days_before_month(y, m) + d - 1
}

/// There is such a date.
pub open spec fn is_date(y: int, m: int, d: int) -> bool {
    1 <= m <= 12 && 1 <= d <= month_days(y, m)
}

/// The length of a year is three hundred and sixty-five days, and one more in a leap year.
proof fn lemma_year_len(y: int)
    ensures
        days_before_year(y + 1) - days_before_year(y) == if leap(y) {
            366int
        } else {
            365
        },
{
}

proof fn lemma_month_table(y: int)
    ensures
        days_before_month(y, 1) == 0,
        days_before_month(y, 2) == 31,
        days_before_month(y, 3) == 31 + month_days(y, 2),
        days_before_month(y, 4) == 62 + month_days(y, 2),
        days_before_month(y, 5) == 92 + month_days(y, 2),
        days_before_month(y, 6) == 123 + month_days(y, 2),
        days_before_month(y, 7) == 153 + month_days(y, 2),
        days_before_month(y, 8) == 184 + month_days(y, 2),
        days_before_month(y, 9) == 215 + month_days(y, 2),
        days_before_month(y, 10) == 245 + month_days(y, 2),
        days_before_month(y, 11) == 276 + month_days(y, 2),
        days_before_month(y, 12) == 306 + month_days(y, 2),
        days_before_month(y, 13) == 337 + month_days(y, 2),
{
    reveal_with_fuel(days_before_month, 14);
}

/// The days from the first of March to the first of a month, months counted from March.
pub open spec fn march_days(mp: int) -> int {
    (153 * mp + 2) / 5
}

proof fn lemma_march(y: int, m: int)
    requires
        1 <= m <= 12,
    ensures
        m > 2 ==> days_before_month(y, m) == 31 + month_days(y, 2) + march_days(m - 3),
        m <= 2 ==> days_before_month(y, m) + 306 == march_days(m + 9),
{
    lemma_month_table(y);
}

/// The day number of a date, with years that begin in March.
proof fn lemma_shifted_year(y: int, m: int, d: int)
    requires
        1 <= m <= 12,
    ensures
        ({
            let ys = if m <= 2 {
                y - 1
            } else {
                y
            };
            let mp = if m > 2 {
                m - 3
            } else {
                m + 9
            };
            day_number(y, m, d) == 365 * ys + ys / 4 - ys / 100 + ys / 400 + march_days(mp) + d - 1 - 719468
        }),
{
    lemma_march(y, m);
    if m <= 2 {
        lemma_year_len(y - 1);
    } else {
        lemma_year_len(y);
        assert(days_before_year(y + 1) == 365 * y + y / 4 - y / 100 + y / 400);
    }
}

/// The day number of a date can be counted in the numbers that are used for it: 64 bits for what
/// goes over all years, and 32 bits for the days since the last first of March of a year that
/// four hundred divides.
pub open spec fn countable(y: int, m: int, d: int) -> bool {
    let ys = if m <= 2 {
        y - 1
    } else {
        y
    };
    let mp = if m > 2 {
        m - 3
    } else {
        m + 9
    };
    let base = 146097 * (ys / 400);
    let n = day_number(y, m, d);
    &&& 1 <= march_days(mp) + d <= u32::MAX
    &&& i64::MIN <= base
    &&& n + 719468 - base <= u32::MAX
    &&& i64::MIN <= n
    &&& n + 719468 <= i64::MAX
}

proof fn lemma_countable(y: int, m: int, d: int)
    requires
        -10_000_000_000_000_000 <= y <= 10_000_000_000_000_000,
        1 <= m <= 12,
        1 <= d <= 31,
    ensures
        countable(y, m, d),
{
    lemma_shifted_year(y, m, d);
    let ys = if m <= 2 {
        y - 1
    } else {
        y
    };
    let e = ys / 400;
    let q = ys % 400;
    lemma_century(e, q);
    assert(ys == 400 * e + q);
}

/// The day number of a date. A day beyond the month counts on into the next.
pub fn days_from_civil(y: i64, m: u32, d: u32) -> (r: i64)
    requires
        1 <= m <= 12,
        countable(y as int, m as int, d as int),
    ensures
        r == day_number(y as int, m as int, d as int),
{
    proof {
        lemma_shifted_year(y as int, m as int, d as int);
    }
    let ys: i64 = if m <= 2 {
        y - 1
    } else {
        y
    };
    let t: i64 = if ys >= 0 {
        ys
    } else {
        ys - 399
    };
    let era: i64 = if t >= 0 {
        t / 400
    } else {
        -((-t) / 400)
    };
    proof {
        assert(era == ys as int / 400);
    }
    let yoe: u32 = (ys - era * 400) as u32;
    let mp: u32 = if m > 2 {
        m - 3
    } else {
        m + 9
    };
    let doy: u32 = (153 * mp + 2) / 5 + d - 1;
    proof {
        let e = era as int;
        let q = yoe as int;
        assert(ys as int == 400 * e + q);
        assert(0 <= q < 400);
        assert(ys as int / 4 == 100 * e + q / 4);
        assert(ys as int / 100 == 4 * e + q / 100);
    }
    let doe: u32 = yoe * 365 + yoe / 4 - yoe / 100 + doy;
    era * 146097 + doe as i64 - 719468
}

/// The year of an era that a day of the era falls into, and the day of that year.
proof fn lemma_year_of_era(doe: int)
    requires
        0 <= doe < 146097,
    ensures
        ({
            let yoe = (doe - doe / 1460 + doe / 36524 - doe / 146096) / 365;
            let doy = doe - (365 * yoe + yoe / 4 - yoe / 100);
            &&& 0 <= yoe < 400
            &&& 0 <= doy <= 365
            &&& doy == 365 ==> (yoe + 1) % 4 == 0 && ((yoe + 1) % 100 != 0 || yoe + 1 == 400)
        }),
{
    let yoe = (doe - doe / 1460 + doe / 36524 - doe / 146096) / 365;
    let doy = doe - (365 * yoe + yoe / 4 - yoe / 100);
    assert(0 <= doe / 36524 <= 4);
    assert(0 <= yoe / 100 <= 4);
}

/// The date of a day number, year by year from March on.
#[verifier::opaque]
spec fn civil(zs: int) -> (int, int, int) {
    let era = zs / 146097;
    let doe = zs % 146097;
    let yoe = (doe - doe / 1460 + doe / 36524 - doe / 146096) / 365;
    let doy = doe - (365 * yoe + yoe / 4 - yoe / 100);
    let mp = (5 * doy + 2) / 153;
    let m = if mp < 10 {
        mp + 3
    } else {
        mp - 9
    };
    let ys = yoe + era * 400;
    (
        if m <= 2 {
            ys + 1
        } else {
            ys
        },
        m,
        doy - march_days(mp) + 1,
    )
}

proof fn lemma_century(e: int, q: int)
    requires
        0 <= q < 400,
    ensures
        (400 * e + q) / 4 == 100 * e + q / 4,
        (400 * e + q) / 100 == 4 * e + q / 100,
        (400 * e + q) / 400 == e,
        (q + 1) % 4 == 0 && ((q + 1) % 100 != 0 || q + 1 == 400) ==> leap(400 * e + q + 1),
{
}

proof fn lemma_civil(zs: int)
    ensures
        is_date(civil(zs).0, civil(zs).1, civil(zs).2),
        day_number(civil(zs).0, civil(zs).1, civil(zs).2) == zs - 719468,
{
    reveal(civil);
    let era = zs / 146097;
    let doe = zs % 146097;
    let yoe = (doe - doe / 1460 + doe / 36524 - doe / 146096) / 365;
    let doy = doe - (365 * yoe + yoe / 4 - yoe / 100);
    let ys = yoe + era * 400;
    lemma_year_of_era(doe);
    lemma_century(era, yoe);
    lemma_day_fits(ys, doy);
    lemma_shifted_year(civil(zs).0, civil(zs).1, civil(zs).2);
    assert(zs == 146097 * era + doe);
}

/// The date of a day number.
#[verifier::rlimit(40)]
pub fn civil_from_days(z: i64) -> (r: (i64, u32, u32))
    requires
        z + 719468 <= i64::MAX,
    ensures
        is_date(r.0 as int, r.1 as int, r.2 as int),
        day_number(r.0 as int, r.1 as int, r.2 as int) == z,
{
    let zs: i64 = z + 719468;
    let t: i64 = if zs >= 0 {
        zs
    } else {
        zs - 146096
    };
    let era: i64 = if t >= 0 {
        t / 146097
    } else {
        -((-t) / 146097)
    };
    assert(era == zs as int / 146097);
    let doe: u32 = (zs - era * 146097) as u32;
    assert(doe == zs as int % 146097);
    proof {
        lemma_civil(zs as int);
        lemma_year_of_era(doe as int);
    }
    let yoe: u32 = (doe - doe / 1460 + doe / 36524 - doe / 146096) / 365;
    let ys: i64 = yoe as i64 + era * 400;
    let doy: u32 = doe - (365 * yoe + yoe / 4 - yoe / 100);
    let mp: u32 = (5 * doy + 2) / 153;
    assert(mp <= 11);
    assert((153 * mp + 2) / 5 <= doy) by {
        assert(5 * doy + 2 >= 153 * mp);
    }
    let d: u32 = doy - (153 * mp + 2) / 5 + 1;
    let m: u32 = if mp < 10 {
        mp + 3
    } else {
        mp - 9
    };
    let y: i64 = if m <= 2 {
        ys + 1
    } else {
        ys
    };
    proof {
        reveal(civil);
        assert(civil(zs as int) == (y as int, m as int, d as int));
    }
    (y, m, d)
}

proof fn lemma_day_fits(ys: int, doy: int)
    requires
        0 <= doy <= 365,
        doy == 365 ==> leap(ys + 1),
    ensures
        ({
            let mp = (5 * doy + 2) / 153;
            let d = doy - march_days(mp) + 1;
            let m = if mp < 10 {
                mp + 3
            } else {
                mp - 9
            };
            let y = if m <= 2 {
                ys + 1
            } else {
                ys
            };
            is_date(y, m, d)
        }),
{
    let mp = (5 * doy + 2) / 153;
    assert(0 <= mp <= 11);
}

/// Two dates with the same number are the same date.
pub proof fn law_dates_unique(y1: int, m1: int, d1: int, y2: int, m2: int, d2: int)
    requires
        is_date(y1, m1, d1),
        is_date(y2, m2, d2),
        day_number(y1, m1, d1) == day_number(y2, m2, d2),
    ensures
        y1 == y2,
        m1 == m2,
        d1 == d2,
{
    lemma_month_table(y1);
    lemma_month_table(y2);
    lemma_year_len(y1);
    lemma_year_len(y2);
    if y1 < y2 {
        lemma_years_grow(y1 + 1, y2);
    } else if y2 < y1 {
        lemma_years_grow(y2 + 1, y1);
    }
}

proof fn lemma_years_grow(a: int, b: int)
    requires
        a <= b,
    ensures
        days_before_year(a) <= days_before_year(b),
    decreases b - a,
{
    if a < b {
        lemma_year_len(b - 1);
        lemma_years_grow(a, b - 1);
    }
}

/// A day of the month that every month has, nearest to the one that is asked for.
pub open spec fn clamped_day(d: u8) -> int {
    if d < 1 {
        1
    } else if d > 28 {
        28
    } else {
        d as int
    }
}

/// The number of a day of a month; months are counted from the year zero on.
pub open spec fn month_day(k: int, d: int) -> int {
    day_number(k / 12, k % 12 + 1, d)
}

/// The billing period that day `day` falls into begins in month `k`: on a fixed day of the month, at
/// or before `day`, and the next one begins after it.
pub open spec fn begins_in(k: int, day: int, d: int) -> bool {
    month_day(k, d) <= day < month_day(k + 1, d)
}

/// Later months begin later.
proof fn lemma_months_grow(a: int, b: int, d: int)
    requires
        a < b,
    ensures
        month_day(a, d) < month_day(b, d),
    decreases b - a,
{
    lemma_next_month(b - 1, d);
    if a < b - 1 {
        lemma_months_grow(a, b - 1, d);
    }
}

proof fn lemma_next_month(k: int, d: int)
    ensures
        month_day(k + 1, d) == month_day(k, d) + month_days(k / 12, k % 12 + 1),
{
    let y = k / 12;
    let m = k % 12 + 1;
    if m < 12 {
        assert((k + 1) / 12 == y && (k + 1) % 12 + 1 == m + 1);
        assert(days_before_month(y, m + 1) == days_before_month(y, m) + month_days(y, m));
    } else {
        assert((k + 1) / 12 == y + 1 && (k + 1) % 12 + 1 == 1);
        lemma_month_table(y);
        lemma_month_table(y + 1);
        lemma_year_len(y);
    }
}

/// The second at which the billing period of a moment begins, counted from 1970 and modulo the range
/// of the counter.
pub open spec fn period_start(now: u64, reset_day: u8) -> u64 {
    let d = clamped_day(reset_day);
    ((month_day(period_month((now / 86400) as int, d), d) * 86400) % 0x1_0000_0000_0000_0000) as u64
}

/// The month in which the billing period of a day begins.
pub open spec fn period_month(day: int, d: int) -> int {
    choose|k: int| begins_in(k, day, d)
}

/// A day falls into one billing period only.
pub proof fn law_period_unique(a: int, b: int, day: int, d: int)
    requires
        begins_in(a, day, d),
        begins_in(b, day, d),
    ensures
        a == b,
{
    if a < b {
        if a + 1 < b {
            lemma_months_grow(a + 1, b, d);
        }
    } else if b < a {
        if b + 1 < a {
            lemma_months_grow(b + 1, a, d);
        }
    }
}

/// All moments of a billing period have the same beginning, and the next moment after it has a later
/// one.
pub proof fn law_period_constant(now: u64, later: u64, reset_day: u8, k: int)
    requires
        begins_in(k, (now / 86400) as int, clamped_day(reset_day)),
        begins_in(k, (later / 86400) as int, clamped_day(reset_day)),
    ensures
        period_start(now, reset_day) == period_start(later, reset_day),
{
    let d = clamped_day(reset_day);
    let a = period_month((now / 86400) as int, d);
    let b = period_month((later / 86400) as int, d);
    law_period_unique(a, k, (now / 86400) as int, d);
    law_period_unique(b, k, (later / 86400) as int, d);
}

/// The second at which the billing period of a moment begins.
pub fn compute_period_start(now_secs: u64, reset_day: u8) -> (r: u64)
    ensures
        r == period_start(now_secs, reset_day),
{
    let rd: u8 = if reset_day < 1 {
        1
    } else if reset_day > 28 {
        28
    } else {
        reset_day
    };
    let days: i64 = (now_secs / 86400) as i64;
    let c: (i64, u32, u32) = civil_from_days(days);
    let back: bool = c.2 < rd as u32;
    proof {
        lemma_year_bound(c.0 as int, c.1 as int, c.2 as int);
        lemma_period(c.0 as int, c.1 as int, c.2 as int, rd as int);
    }
    let y: i64 = if back && c.1 == 1 {
        c.0 - 1
    } else {
        c.0
    };
    let m: u32 = if back {
        if c.1 == 1 {
            12
        } else {
            c.1 - 1
        }
    } else {
        c.1
    };
    proof {
        lemma_countable(y as int, m as int, rd as int);
    }
    let start: i64 = days_from_civil(y, m, rd as u32);
    if start >= 0 {
        start as u64 * 86400
    } else {
        u64::MAX - ((-start) as u64 * 86400 - 1)
    }
}

/// The month in which the billing period of a date begins: that of the date, or the one before it
/// where the day has not come yet.
proof fn lemma_period(y: int, m: int, d: int, rd: int)
    requires
        is_date(y, m, d),
        1 <= rd <= 28,
    ensures
        ({
            let py = if d < rd && m == 1 {
                y - 1
            } else {
                y
            };
            let pm = if d < rd {
                if m == 1 {
                    12
                } else {
                    m - 1
                }
            } else {
                m
            };
            let day = day_number(y, m, d);
            &&& month_day(period_month(day, rd), rd) == day_number(py, pm, rd)
            &&& day - 60 <= day_number(py, pm, rd) <= day
        }),
{
    let k0 = 12 * y + m - 1;
    let k = if d < rd {
        k0 - 1
    } else {
        k0
    };
    let day = day_number(y, m, d);
    assert(k0 / 12 == y && k0 % 12 + 1 == m);
    assert(k / 12 == (if d < rd && m == 1 {
        y - 1
    } else {
        y
    }));
    assert(k % 12 + 1 == (if d < rd {
        if m == 1 {
            12
        } else {
            m - 1
        }
    } else {
        m
    }));
    lemma_next_month(k, rd);
    lemma_next_month(k0, rd);
    assert(month_day(k0, rd) == day - d + rd);
    assert(28 <= month_days(k / 12, k % 12 + 1) <= 31);
    assert(28 <= month_days(k0 / 12, k0 % 12 + 1) <= 31);
    assert(begins_in(k, day, rd));
    law_period_unique(period_month(day, rd), k, day, rd);
}

proof fn lemma_year_bound(y: int, m: int, d: int)
    requires
        is_date(y, m, d),
        -1 <= day_number(y, m, d) <= 300_000_000_000_000,
    ensures
        0 <= y <= 1_000_000_000_000,
{
    lemma_month_table(y);
}

/// The day after a date has the next number: a later day of the month, the first of the next month, or
/// New Year's Day; and the first of January 1970 has the number zero.
pub proof fn law_days_counted(y: int, m: int, d: int)
    requires
        is_date(y, m, d),
    ensures
        day_number(1970, 1, 1) == 0,
        day_number(y, m, d + 1) == day_number(y, m, d) + 1,
        d == month_days(y, m) && m < 12 ==> day_number(y, m + 1, 1) == day_number(y, m, d) + 1,
        d == 31 && m == 12 ==> day_number(y + 1, 1, 1) == day_number(y, m, d) + 1,
{
    lemma_month_table(y);
    lemma_month_table(y + 1);
    lemma_year_len(y);
    lemma_month_table(1970);
}

/// The months have thirty-one days and some thirty; February has twenty-eight, and twenty-nine in a
/// year that four divides, unless a hundred does and four hundred does not.
pub proof fn law_month_days(y: int, m: int)
    requires
        1 <= m <= 12,
    ensures
        m == 4 || m == 6 || m == 9 || m == 11 <==> month_days(y, m) == 30,
        m == 1 || m == 3 || m == 5 || m == 7 || m == 8 || m == 10 || m == 12 <==> month_days(y, m) == 31,
        m == 2 && y % 4 != 0 ==> month_days(y, m) == 28,
        m == 2 && y % 4 == 0 && y % 100 != 0 ==> month_days(y, m) == 29,
        m == 2 && y % 100 == 0 && y % 400 != 0 ==> month_days(y, m) == 28,
        m == 2 && y % 400 == 0 ==> month_days(y, m) == 29,
{
}

/// Every moment from the day of a month on which periods begin to that day of the next month, which
/// begins the next one, belongs to the period that begins then. A day that not every month has counts
/// as the nearest that every month has.
pub proof fn law_period_begins(y: int, m: int, reset_day: u8, now: u64)
    requires
        1 <= m <= 12,
        ({
            let d = if reset_day == 0 {
                1
            } else if reset_day > 28 {
                28
            } else {
                reset_day as int
            };
            0 <= day_number(y, m, d) * 86400 <= now < 86400 * if m == 12 {
                day_number(y + 1, 1, d)
            } else {
                day_number(y, m + 1, d)
            }
        }),
    ensures
        period_start(now, reset_day) == 86400 * day_number(
            y,
            m,
            if reset_day == 0 {
                1
            } else if reset_day > 28 {
                28
            } else {
                reset_day as int
            },
        ),
{
    let d = clamped_day(reset_day);
    let k = 12 * y + m - 1;
    assert(k / 12 == y && k % 12 + 1 == m);
    if m == 12 {
        assert((k + 1) / 12 == y + 1 && (k + 1) % 12 + 1 == 1);
    } else {
        assert((k + 1) / 12 == y && (k + 1) % 12 + 1 == m + 1);
    }
    let day = (now / 86400) as int;
    assert(begins_in(k, day, d));
    law_period_unique(period_month(day, d), k, day, d);
}

} // verus!
