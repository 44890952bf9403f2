//! Proleptic Gregorian calendar arithmetic for rendering timestamps.
use vstd::prelude::*;

verus! {

/// Gregorian leap-year rule.
pub open spec fn is_leap(y: int) -> bool {
    y % 4 == 0 && (y % 100 != 0 || y % 400 == 0)
}

/// Number of days in year `y`.
pub open spec fn year_len(y: int) -> int {
    if is_leap(y) {
        366
    } else {
        365
    }
}

/// Number of days in month `m` (1 to 12) of year `y`.
pub open spec fn month_len(y: int, m: int) -> int {
    if m == 2 {
        if is_leap(y) {
            29
        } else {
            28
        }
    } else if m == 4 || m == 6 || m == 9 || m == 11 {
        30
    } else {
        31
    }
}

/// Days from 1970-01-01 to the first of January of year `y` (`y >= 1970`).
pub open spec fn days_before_year(y: int) -> int
    decreases y - 1970,
{
    if y <= 1970 {
        0
    } else {
        days_before_year(y - 1) + year_len(y - 1)
    }
}

/// Days from the first of January to the first of month `m` in year `y`.
pub open spec fn days_before_month(y: int, m: int) -> int
    decreases m,
{
    if m <= 1 {
        0
    } else {
        days_before_month(y, m - 1) + month_len(y, m - 1)
    }
}

/// A real calendar date no earlier than 1970-01-01.
pub open spec fn valid_date(y: int, m: int, d: int) -> bool {
    y >= 1970 && 1 <= m <= 12 && 1 <= d <= month_len(y, m)
}

/// Days since 1970-01-01 of the date `y-m-d`.
pub open spec fn days_from_civil(y: int, m: int, d: int) -> int {
    days_before_year(y) + days_before_month(y, m) + d - 1
}

/// Days from 0000-03-01 to the first of March of year `y` (`y >= 0`).
pub open spec fn march_start(y: int) -> int {
    365 * y + y / 4 - y / 100 + y / 400
}

/// The year of March `y` to February `y + 1` is as long as Gregorian
/// year `y + 1`.
proof fn lemma_march_year_len(y: int)
    requires
        y >= 0,
    ensures
        march_start(y + 1) - march_start(y) == year_len(y + 1),
{
    let z = y + 1;
    assert(z / 4 - y / 4 == if z % 4 == 0 { 1int } else { 0int });
    assert(z / 100 - y / 100 == if z % 100 == 0 { 1int } else { 0int });
    assert(z / 400 - y / 400 == if z % 400 == 0 { 1int } else { 0int });
    assert(z % 100 == 0 ==> z % 4 == 0);
    assert(z % 400 == 0 ==> z % 100 == 0);
}

/// Closed form of the days before a year.
proof fn lemma_days_before_year(y: int)
    requires
        y >= 1970,
    ensures
        days_before_year(y) == march_start(y - 1) + 306 - 719468,
    decreases y - 1970,
{
    if y > 1970 {
        lemma_days_before_year(y - 1);
        lemma_march_year_len(y - 2);
    } else {
        assert(march_start(1969) == 719162);
    }
}

/// Offset of the first day of month `mp` counted from March (`mp` from 0
/// for March to 11 for February).
pub open spec fn march_month_start(mp: int) -> int {
    (153 * mp + 2) / 5
}

proof fn lemma_days_before_month(y: int, m: int)
    requires
        1 <= m <= 12,
    ensures
        m >= 3 ==> days_before_month(y, m) == 59 + (if is_leap(y) { 1int } else { 0int })
            + march_month_start(m - 3),
        m == 1 ==> days_before_month(y, m) == 0,
        m == 2 ==> days_before_month(y, m) == 31,
{
    reveal_with_fuel(days_before_month, 13);
}

/// Splits a day of the 400-year era into year of era and day of year,
/// as the era arithmetic of `civil_from_days` does.
proof fn lemma_year_of_era(doe: int)
    requires
        0 <= doe < 146097,
    ensures
        ({
            let yoe = (doe - doe / 1460 + doe / 36524 - doe / 146096) / 365;
            let doy = doe - (365 * yoe + yoe / 4 - yoe / 100);
            &&& 0 <= yoe <= 399
            &&& 0 <= doy
            &&& doy < year_len(yoe + 1)
            &&& march_start(yoe) == 365 * yoe + yoe / 4 - yoe / 100
        }),
{
    let c: int = if doe == 146096 { 3 } else { doe / 36524 };
    let d: int = doe - 36524 * c;
    let a: int = d / 1461;
    let e: int = d % 1461;
    let b: int = if e >= 1095 { 3 } else { e / 365 };
    assert(0 <= c <= 3);
    assert(0 <= d <= 36524);
    assert(0 <= a <= 24);
    assert(a == 24 ==> e <= 1460);
    assert(d == 1461 * a + e);
    assert(0 <= b <= 3);
    assert(365 * b <= e);
    assert(b < 3 ==> e < 365 * b + 365);
    let t: int = if 24 * c + a + e >= 1460 { 1 } else { 0 };
    assert(doe == 1460 * (25 * c + a + t) + (24 * c + a + e - 1460 * t));
    assert(doe / 1460 == 25 * c + a + t) by {
        vstd::arithmetic::div_mod::lemma_fundamental_div_mod_converse_div(
            doe,
            1460,
            25 * c + a + t,
            24 * c + a + e - 1460 * t,
        );
    }
    assert(doe / 36524 == if doe == 146096 { 4int } else { c });
    assert(doe / 146096 == if doe == 146096 { 1int } else { 0int });
    let yoe0 = 100 * c + 4 * a + b;
    let num = doe - doe / 1460 + doe / 36524 - doe / 146096;
    assert(num == 365 * yoe0 + (e - t - 365 * b));
    assert(0 <= e - t - 365 * b < 365);
    assert(num / 365 == yoe0) by {
        vstd::arithmetic::div_mod::lemma_fundamental_div_mod_converse_div(
            num,
            365,
            yoe0,
            e - t - 365 * b,
        );
    }
    assert(yoe0 / 4 == 25 * c + a);
    assert(yoe0 / 100 == c);
    assert(yoe0 / 400 == 0);
    let doy = doe - (365 * yoe0 + yoe0 / 4 - yoe0 / 100);
    assert(doy == e - 365 * b);
    let z = yoe0 + 1;
    assert(doy == 365 ==> is_leap(z)) by {
        if doy == 365 {
            assert(b == 3 && e == 1460);
            assert(z == 100 * c + 4 * a + 4);
            assert(z % 4 == 0);
            if a < 24 {
                assert(z % 100 == 4 * a + 4);
            } else {
                assert(doe == 146096);
                assert(z == 400);
            }
        }
    }
}

/// The calendar date of the day `days` days after 1970-01-01.
pub open spec fn is_civil_of_days(days: int, y: int, m: int, d: int) -> bool {
    valid_date(y, m, d) && days_from_civil(y, m, d) == days
}

/// The calendar date of a day count (meaningful for `days >= 0`).
pub open spec fn civil_date(days: int) -> (int, int, int) {
    choose|t: (int, int, int)| is_civil_of_days(days, t.0, t.1, t.2)
}

proof fn lemma_days_before_month_13(y: int)
    ensures
        days_before_month(y, 13) == year_len(y),
        forall|m: int| 1 <= m <= 12 ==> days_before_month(y, m) + month_len(y, m) == days_before_month(y, #[trigger] (m + 1)),
{
    reveal_with_fuel(days_before_month, 14);
}

proof fn lemma_days_before_month_mono(y: int, m1: int, m2: int)
    requires
        1 <= m1 <= m2 <= 13,
    ensures
        days_before_month(y, m1) + (m2 - m1) * 28 <= days_before_month(y, m2),
    decreases m2 - m1,
{
    if m1 < m2 {
        lemma_days_before_month_mono(y, m1, m2 - 1);
        lemma_days_before_month_13(y);
        assert(days_before_month(y, m2) == days_before_month(y, m2 - 1) + month_len(y, m2 - 1));
    }
}

proof fn lemma_days_before_year_mono(y1: int, y2: int)
    requires
        1970 <= y1 <= y2,
    ensures
        days_before_year(y1) + 365 * (y2 - y1) <= days_before_year(y2),
    decreases y2 - y1,
{
    if y1 < y2 {
        lemma_days_before_year_mono(y1, y2 - 1);
    }
}

/// A valid date lies inside its year.
proof fn lemma_date_in_year(y: int, m: int, d: int)
    requires
        valid_date(y, m, d),
    ensures
        days_before_year(y) <= days_from_civil(y, m, d) < days_before_year(y + 1),
        days_before_month(y, m) <= days_before_month(y, m) + d - 1 < days_before_month(y, m + 1),
{
    lemma_days_before_month_13(y);
    lemma_days_before_month_mono(y, m + 1, 13);
    lemma_days_before_month_mono(y, 1, m);
    assert(days_before_year(y + 1) == days_before_year(y) + year_len(y));
}

/// Each day count names at most one valid date.
pub proof fn lemma_civil_unique(days: int, y1: int, m1: int, d1: int, y2: int, m2: int, d2: int)
    requires
        is_civil_of_days(days, y1, m1, d1),
        is_civil_of_days(days, y2, m2, d2),
    ensures
        y1 == y2 && m1 == m2 && d1 == d2,
{
    lemma_date_in_year(y1, m1, d1);
    lemma_date_in_year(y2, m2, d2);
    if y1 < y2 {
        lemma_days_before_year_mono(y1 + 1, y2);
    } else if y2 < y1 {
        lemma_days_before_year_mono(y2 + 1, y1);
    } else {
        if m1 < m2 {
            lemma_days_before_month_mono(y1, m1 + 1, m2);
        } else if m2 < m1 {
            lemma_days_before_month_mono(y1, m2 + 1, m1);
        }
    }
}

/// Years of dates up to `days` after the epoch stay below `1970 + days / 365 + 1`.
pub proof fn lemma_civil_year_bound(days: int, y: int, m: int, d: int)
    requires
        is_civil_of_days(days, y, m, d),
    ensures
        365 * (y - 1970) <= days,
{
    lemma_days_before_year_mono(1970, y);
    lemma_date_in_year(y, m, d);
}

/// Converts a count of days since the UNIX epoch (1970-01-01) into a
/// proleptic Gregorian `(year, month, day)`.
pub fn civil_from_days(days: u64) -> (r: (u64, u64, u64))
    requires
        days <= u64::MAX - 719_468,
    ensures
        is_civil_of_days(days as int, r.0 as int, r.1 as int, r.2 as int),
        (r.0 as int, r.1 as int, r.2 as int) == civil_date(days as int),
{
    // Shift the era origin from 1970-01-01 to 0000-03-01 so that the
    // leap day lands at the end of the (shifted) year.
    let z = days + 719_468;
    let era = z / 146_097;
    let doe = z % 146_097;
    proof {
        lemma_year_of_era(doe as int);
    }
    let yoe = (doe - doe / 1460 + doe / 36_524 - doe / 146_096) / 365;
    let doy = doe - (365 * yoe + yoe / 4 - yoe / 100);
    let mp = (5 * doy + 2) / 153;
    proof {
        assert(0 <= mp <= 11) by {
            assert(doy <= 365);
        }
    }
    let day = doy - (153 * mp + 2) / 5 + 1;
    let month = if mp < 10 { mp + 3 } else { mp - 9 };
    let year = yoe + era * 400 + if month <= 2 { 1u64 } else { 0u64 };
    proof {
        let ye = (era * 400 + yoe) as int;
        lemma_calendar_tail(z as int, era as int, doe as int, yoe as int, doy as int, mp as int);
        assert(ye == era * 400 + yoe);
        let t = (year as int, month as int, day as int);
        assert(is_civil_of_days(days as int, t.0, t.1, t.2));
        let c = civil_date(days as int);
        lemma_civil_unique(days as int, t.0, t.1, t.2, c.0, c.1, c.2);
    }
    (year, month, day)
}

proof fn lemma_calendar_tail(z: int, era: int, doe: int, yoe: int, doy: int, mp: int)
    requires
        z >= 719_468,
        era == z / 146_097,
        doe == z % 146_097,
        0 <= yoe <= 399,
        0 <= doy < year_len(yoe + 1),
        march_start(yoe) == 365 * yoe + yoe / 4 - yoe / 100,
        doy == doe - march_start(yoe),
        mp == (5 * doy + 2) / 153,
    ensures
        ({
            let ye = era * 400 + yoe;
            let day = doy - (153 * mp + 2) / 5 + 1;
            let month = if mp < 10 { mp + 3 } else { mp - 9 };
            let year = ye + if month <= 2 { 1int } else { 0int };
            &&& 0 <= mp <= 11
            &&& 1 <= day
            &&& is_civil_of_days(z - 719_468, year, month, day)
        }),
{
    let ye = era * 400 + yoe;
    // The era start is a whole number of 400-year cycles.
    assert(z == 146_097 * era + doe) by {
        vstd::arithmetic::div_mod::lemma_fundamental_div_mod(z, 146_097);
    }
    assert(era >= 0);
    assert(ye / 4 == 100 * era + yoe / 4) by {
        vstd::arithmetic::div_mod::lemma_fundamental_div_mod_converse_div(
            ye, 4, 100 * era + yoe / 4, yoe % 4);
    }
    assert(ye / 100 == 4 * era + yoe / 100) by {
        vstd::arithmetic::div_mod::lemma_fundamental_div_mod_converse_div(
            ye, 100, 4 * era + yoe / 100, yoe % 100);
    }
    assert(ye / 400 == era) by {
        vstd::arithmetic::div_mod::lemma_fundamental_div_mod_converse_div(ye, 400, era, yoe);
    }
    assert(march_start(ye) == 146_097 * era + march_start(yoe));
    assert(z == march_start(ye) + doy);
    let w = ye + 1;
    assert(w % 4 == (yoe + 1) % 4 && w % 100 == (yoe + 1) % 100 && w % 400 == (yoe + 1) % 400) by {
        vstd::arithmetic::div_mod::lemma_fundamental_div_mod_converse_mod(
            w, 4, 100 * era + (yoe + 1) / 4, (yoe + 1) % 4);
        vstd::arithmetic::div_mod::lemma_fundamental_div_mod_converse_mod(
            w, 100, 4 * era + (yoe + 1) / 100, (yoe + 1) % 100);
        vstd::arithmetic::div_mod::lemma_fundamental_div_mod_converse_mod(
            w, 400, era + (yoe + 1) / 400, (yoe + 1) % 400);
    }
    assert(year_len(ye + 1) == year_len(yoe + 1));
    lemma_march_year_len(ye);
    // The shifted year is no earlier than March 1969.
    assert(ye >= 1969) by {
        if ye < 1969 {
            lemma_march_start_mono(ye + 1, 1969);
            assert(march_start(1969) == 719_162);
        }
    }
    assert(0 <= mp <= 11) by {
        assert(5 * doy + 2 < 153 * 12);
        vstd::arithmetic::div_mod::lemma_div_is_ordered(5 * doy + 2, 153 * 12 - 1, 153);
    }
    assert(153 * mp <= 5 * doy + 2 < 153 * mp + 153) by {
        vstd::arithmetic::div_mod::lemma_fundamental_div_mod(5 * doy + 2, 153);
    }
    let ms = (153 * mp + 2) / 5;
    let day = doy - ms + 1;
    let month = if mp < 10 { mp + 3 } else { mp - 9 };
    let year = ye + if month <= 2 { 1int } else { 0int };
    assert(ms == if mp == 0 { 0int } else if mp == 1 { 31int } else if mp == 2 { 61int }
        else if mp == 3 { 92int } else if mp == 4 { 122int } else if mp == 5 { 153int }
        else if mp == 6 { 184int } else if mp == 7 { 214int } else if mp == 8 { 245int }
        else if mp == 9 { 275int } else if mp == 10 { 306int } else { 337int });
    assert(1 <= day);
    lemma_days_before_month(year, month);
    if mp < 10 {
        assert(ye >= 1970) by {
            if ye == 1969 {
                assert(march_start(1969) == 719_162);
                assert(doy >= 306);
            }
        }
        lemma_days_before_year(ye);
        lemma_march_year_len(ye - 1);
        assert(day <= month_len(year, month));
    } else {
        lemma_days_before_year(ye + 1);
        assert(day <= month_len(year, month));
    }
}

proof fn lemma_march_start_mono(a: int, b: int)
    requires
        0 <= a <= b,
    ensures
        march_start(a) <= march_start(b),
    decreases b - a,
{
    if a < b {
        lemma_march_start_mono(a, b - 1);
        lemma_march_year_len(b - 1);
    }
}

} // verus!
