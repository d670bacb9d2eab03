//! The proleptic Gregorian calendar, stated directly, and the day-count
//! arithmetic (Hinnant's `civil_from_days` / `days_from_civil`) proved
//! against it.
use vstd::prelude::*;

verus! {

/// Gregorian leap-year rule.
pub open spec fn is_leap(y: int) -> bool {
    y % 4 == 0 && (y % 100 != 0 || y % 400 == 0)
}

/// Number of days in month `m` (1..=12) of year `y`.
pub open spec fn month_len(y: int, m: int) -> int {
    if m == 2 {
        if is_leap(y) {
            29
        } else {
            28
        }
    } else if m == 4 || m == 6 || m == 9 || m == 11 {
        30
    } else {
        31
    }
}

/// Days of year `y` that precede the first of month `m` (1..=12).
pub open spec fn days_before_month(y: int, m: int) -> int {
    let base: int = if m == 1 {
        0
    } else if m == 2 {
        31
    } else if m == 3 {
        59
    } else if m == 4 {
        90
    } else if m == 5 {
        120
    } else if m == 6 {
        151
    } else if m == 7 {
        181
    } else if m == 8 {
        212
    } else if m == 9 {
        243
    } else if m == 10 {
        273
    } else if m == 11 {
        304
    } else {
        334
    };
    base + if m > 2 && is_leap(y) {
        1int
    } else {
        0int
    }
}

/// Number of leap years among the years `1..=y` (negative for `y < 0`,
/// counting backwards, so that consecutive differences are leap flags).
pub open spec fn leaps_through(y: int) -> int {
    y / 4 - y / 100 + y / 400
}

/// Days from 1970-01-01 to the first of January of year `y`.
pub open spec fn days_before_year(y: int) -> int {
    365 * (y - 1970) + leaps_through(y - 1) - leaps_through(1969)
}

/// Days from 1970-01-01 to the date `y-m-d` (negative before the epoch).
pub open spec fn epoch_days(y: int, m: int, d: int) -> int {
    days_before_year(y) + days_before_month(y, m) + d - 1
}

/// A real calendar date.
pub open spec fn valid_date(y: int, m: int, d: int) -> bool {
    1 <= m <= 12 && 1 <= d <= month_len(y, m)
}

/// The calendar date that lies `days` days after 1970-01-01.
pub open spec fn civil_of(days: int) -> (int, int, int) {
    choose|t: (int, int, int)| valid_date(t.0, t.1, t.2) && epoch_days(t.0, t.1, t.2) == days
}

/// Hinnant's `days_from_civil`, with Euclidean division as in the code.
pub open spec fn hinnant_days(year: int, month: int, day: int) -> int {
    let y = year - if month <= 2 {
        1int
    } else {
        0int
    };
    let era = y / 400;
    let yoe = y - era * 400;
    let mp = (month + 9) % 12;
    let doy = (153 * mp + 2) / 5 + day - 1;
    let doe = yoe * 365 + yoe / 4 - yoe / 100 + doy;
    era * 146097 + doe - 719468
}

/// Year-of-era that Hinnant's `civil_from_days` picks for day-of-era `doe`.
pub open spec fn yoe_of(doe: int) -> int {
    (doe - doe / 1460 + doe / 36524 - doe / 146096) / 365
}

/// Days of a 400-year era (starting March 1) before March-year `yoe`.
pub open spec fn year_start(yoe: int) -> int {
    365 * yoe + yoe / 4 - yoe / 100
}

/// The March-based year `yoe` of an era ends with a February 29.
pub open spec fn march_year_is_long(yoe: int) -> bool {
    (yoe + 1) % 4 == 0 && ((yoe + 1) % 100 != 0 || yoe == 399)
}

/// The leap years up to `y` count one more than those up to `y - 1`
/// exactly when `y` is a leap year, and year `y` has 366 days then, else 365.
pub proof fn lemma_leap_step(y: int)
    ensures
        leaps_through(y) - leaps_through(y - 1) == if is_leap(y) {
            1int
        } else {
            0int
        },
        days_before_year(y + 1) == days_before_year(y) + 365 + if is_leap(y) {
            1int
        } else {
            0int
        },
{
}

/// Later years start later.
pub proof fn lemma_days_before_year_monotone(a: int, b: int)
    requires
        a <= b,
    ensures
        days_before_year(a) + 365 * (b - a) <= days_before_year(b),
    decreases b - a,
{
    if a < b {
        lemma_days_before_year_monotone(a, b - 1);
        lemma_leap_step(b - 1);
    }
}

/// Within a year, each valid date lies between that year's first day and
/// the next year's first day.
pub proof fn lemma_date_in_year(y: int, m: int, d: int)
    requires
        valid_date(y, m, d),
    ensures
        days_before_year(y) <= epoch_days(y, m, d) < days_before_year(y + 1),
{
    lemma_leap_step(y);
}

/// Distinct valid dates have distinct day counts.
pub proof fn lemma_epoch_days_injective(y1: int, m1: int, d1: int, y2: int, m2: int, d2: int)
    requires
        valid_date(y1, m1, d1),
        valid_date(y2, m2, d2),
        epoch_days(y1, m1, d1) == epoch_days(y2, m2, d2),
    ensures
        y1 == y2 && m1 == m2 && d1 == d2,
{
    lemma_date_in_year(y1, m1, d1);
    lemma_date_in_year(y2, m2, d2);
    if y1 < y2 {
        lemma_days_before_year_monotone(y1 + 1, y2);
    } else if y2 < y1 {
        lemma_days_before_year_monotone(y2 + 1, y1);
    }
    assert(y1 == y2);
}

/// Hinnant's `days_from_civil` agrees with the direct day count for every
/// year and every month, on any day number (invalid ones included).
pub proof fn lemma_hinnant_days(year: int, month: int, day: int)
    requires
        1 <= month <= 12,
    ensures
        hinnant_days(year, month, day) == epoch_days(year, month, day),
{
    let y = year - if month <= 2 {
        1int
    } else {
        0int
    };
    let era = y / 400;
    let yoe = y - era * 400;
    assert(0 <= yoe < 400);
    assert(y / 4 == era * 100 + yoe / 4);
    assert(y / 100 == era * 4 + yoe / 100);
    assert(y / 400 == era);
    lemma_leap_step(year);
}

/// The bucket that `yoe_of` picks contains `doe`.
pub proof fn lemma_year_of_era(doe: int)
    requires
        0 <= doe <= 146096,
    ensures
        0 <= yoe_of(doe) <= 399,
        year_start(yoe_of(doe)) <= doe,
        doe - year_start(yoe_of(doe)) <= 364 + if march_year_is_long(yoe_of(doe)) {
            1int
        } else {
            0int
        },
{
}

/// Hinnant's `civil_from_days` for a non-negative day count.
pub open spec fn hinnant_civil(days: int) -> (int, int, int) {
    let z = days + 719468;
    let era = z / 146097;
    let doe = z - era * 146097;
    let yoe = yoe_of(doe);
    let doy = doe - year_start(yoe);
    let mp = (5 * doy + 2) / 153;
    let day = doy - (153 * mp + 2) / 5 + 1;
    let month = if mp < 10 {
        mp + 3
    } else {
        mp - 9
    };
    let year = yoe + era * 400 + if month <= 2 {
        1int
    } else {
        0int
    };
    (year, month, day)
}

/// Splitting a day of a March-based year into month and day of month.
pub proof fn lemma_split_day_of_year(doy: int, long: bool)
    requires
        0 <= doy <= 364 + if long {
            1int
        } else {
            0int
        },
    ensures
        ({
            let mp = (5 * doy + 2) / 153;
            let day = doy - (153 * mp + 2) / 5 + 1;
            &&& 0 <= mp <= 11
            &&& 1 <= day <= 31
            &&& (mp == 1 || mp == 3 || mp == 6 || mp == 8) ==> day <= 30
            &&& mp == 11 ==> day <= if long {
                29int
            } else {
                28int
            }
        }),
{
}

/// Hinnant's `civil_from_days` returns a real date with the right day count.
#[verifier::spinoff_prover]
pub proof fn lemma_hinnant_civil(days: int)
    requires
        days >= 0,
    ensures
        valid_date(hinnant_civil(days).0, hinnant_civil(days).1, hinnant_civil(days).2),
        epoch_days(hinnant_civil(days).0, hinnant_civil(days).1, hinnant_civil(days).2) == days,
{
    let z = days + 719468;
    let era = z / 146097;
    let doe = z - era * 146097;
    assert(0 <= doe <= 146096);
    lemma_year_of_era(doe);
    let yoe = yoe_of(doe);
    let doy = doe - year_start(yoe);
    let long = march_year_is_long(yoe);
    lemma_split_day_of_year(doy, long);
    let mp = (5 * doy + 2) / 153;
    let day = doy - (153 * mp + 2) / 5 + 1;
    let month = if mp < 10 {
        mp + 3
    } else {
        mp - 9
    };
    let year = yoe + era * 400 + if month <= 2 {
        1int
    } else {
        0int
    };
    assert(hinnant_civil(days) == (year, month, day));
    assert(month == 2 ==> (is_leap(year) <==> long)) by {
        if month == 2 {
            assert(year == (yoe + 1) + era * 400);
            assert((year % 4 == 0) == ((yoe + 1) % 4 == 0));
            assert((year % 100 == 0) == ((yoe + 1) % 100 == 0));
            assert((year % 400 == 0) == (yoe == 399));
        }
    }
    assert(valid_date(year, month, day));
    lemma_hinnant_days(year, month, day);
    assert((month + 9) % 12 == mp);
    assert(hinnant_days(year, month, day) == days) by {
        let y = year - if month <= 2 {
            1int
        } else {
            0int
        };
        assert(y == yoe + era * 400);
        assert(y / 400 == era);
        assert(y - era * 400 == yoe);
    }
}

/// The date `days` after the epoch, for a non-negative day count, is the one
/// Hinnant's `civil_from_days` computes.
pub proof fn lemma_civil_of(days: int)
    requires
        days >= 0,
    ensures
        civil_of(days) == hinnant_civil(days),
        valid_date(civil_of(days).0, civil_of(days).1, civil_of(days).2),
        epoch_days(civil_of(days).0, civil_of(days).1, civil_of(days).2) == days,
{
    lemma_hinnant_civil(days);
    let t = hinnant_civil(days);
    assert(valid_date(t.0, t.1, t.2) && epoch_days(t.0, t.1, t.2) == days);
    let c = civil_of(days);
    lemma_epoch_days_injective(c.0, c.1, c.2, t.0, t.1, t.2);
}

} // verus!
