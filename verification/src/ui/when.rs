//! Dates: how long ago a commit was made, in the words a reader uses, and the moment a
//! commit records, on the clock of whoever made it.
use crate::text::{
    append, chars_of, decimal, decimal_of, parse_i64, parse_i64_text, signed_decimal,
    signed_decimal_of, split, split_at_char, string_of,
};
use vstd::prelude::*;

verus! {

pub const SECONDS_PER_DAY: i64 = 86_400;

// ---------------------------------------------------------------------------------------
// The calendar
// ---------------------------------------------------------------------------------------

/// The year counted from March, so that the leap day is the last day of its year.
pub open spec fn march_year(year: int, month: int) -> int {
    if month <= 2 {
        year - 1
    } else {
        year
    }
}

/// The days of a March-based year that come before the first of `month`.
pub open spec fn days_before(month: int) -> int {
    toward_zero(153 * (month + if month > 2 {
        -3int
    } else {
        9int
    }) + 2, 5)
}

/// `n / d` rounded toward zero, the way integer division rounds.
pub open spec fn toward_zero(n: int, d: int) -> int {
    if n >= 0 {
        n / d
    } else {
        -((-n) / d)
    }
}

/// The number of days from 1970-01-01 to the given date of the proleptic Gregorian
/// calendar: 365 a year, a leap day every fourth year, none every hundredth, one again
/// every four hundredth.
pub open spec fn civil_days(year: int, month: int, day: int) -> int {
    let y = march_year(year, month);
    365 * y + y / 4 - y / 100 + y / 400 + days_before(month) + day - 1 - 719_468
}

pub open spec fn is_leap(year: int) -> bool {
    year % 4 == 0 && (year % 100 != 0 || year % 400 == 0)
}

pub open spec fn month_length(year: int, month: int) -> int {
    if month == 2 {
        if is_leap(year) {
            29
        } else {
            28
        }
    } else if month == 4 || month == 6 || month == 9 || month == 11 {
        30
    } else {
        31
    }
}

/// A date the calendar has.
pub open spec fn is_date(year: int, month: int, day: int) -> bool {
    1 <= month <= 12 && 1 <= day <= month_length(year, month)
}

/// `floor(value / 400)` for a value that may be negative, the way the days are counted.
proof fn lemma_era(year: int, era: int)
    requires
        era * 400 <= year < era * 400 + 400,
    ensures
        year / 400 == era,
        year / 100 == era * 4 + (year - era * 400) / 100,
        year / 4 == era * 100 + (year - era * 400) / 4,
{
    let yoe = year - era * 400;
    vstd::arithmetic::div_mod::lemma_fundamental_div_mod_converse(year, 400, era, yoe);
    let c = yoe / 100;
    let cr = yoe % 100;
    vstd::arithmetic::div_mod::lemma_fundamental_div_mod(yoe, 100);
    vstd::arithmetic::div_mod::lemma_mod_pos_bound(yoe, 100);
    assert(year == (era * 4 + c) * 100 + cr) by (nonlinear_arith)
        requires
            year == era * 400 + yoe,
            yoe == 100 * c + cr,
    ;
    vstd::arithmetic::div_mod::lemma_fundamental_div_mod_converse(year, 100, era * 4 + c, cr);
    let q = yoe / 4;
    let qr = yoe % 4;
    vstd::arithmetic::div_mod::lemma_fundamental_div_mod(yoe, 4);
    vstd::arithmetic::div_mod::lemma_mod_pos_bound(yoe, 4);
    assert(year == (era * 100 + q) * 4 + qr) by (nonlinear_arith)
        requires
            year == era * 400 + yoe,
            yoe == 4 * q + qr,
    ;
    vstd::arithmetic::div_mod::lemma_fundamental_div_mod_converse(year, 4, era * 100 + q, qr);
}

pub open spec fn in_i64(value: int) -> bool {
    i64::MIN <= value <= i64::MAX
}

/// Whether every step of counting a date's days, the way [`days_from_civil`] counts them,
/// stays within 64 bits: the year the count starts from, its four-hundred-year era, the
/// month's offset, the day of the year and of the era, and the count itself.
pub open spec fn civil_fits(year: int, month: int, day: int) -> bool {
    let y = march_year(year, month);
    let era = y / 400;
    let year_of_era = y - era * 400;
    let shift = month + if month > 2 {
        -3int
    } else {
        9int
    };
    let day_of_year = days_before(month) + day - 1;
    let day_of_era = year_of_era * 365 + year_of_era / 4 - year_of_era / 100 + day_of_year;
    &&& in_i64(y)
    &&& in_i64(era * 400)
    &&& in_i64(153 * shift)
    &&& in_i64(153 * shift + 2)
    &&& in_i64(days_before(month) + day)
    &&& in_i64(day_of_year)
    &&& in_i64(day_of_era)
    &&& in_i64(era * 146_097)
    &&& in_i64(era * 146_097 + day_of_era)
    &&& in_i64(era * 146_097 + day_of_era - 719_468)
}

/// The era of a March-based year as the count works it out: `floor(year / 400)`, also for a
/// year before 0, without a step that leaves 64 bits.
fn era_of(year: i64) -> (era: i64)
    ensures
        era == year / 400,
        era * 400 <= year < era * 400 + 400,
{
    if year >= 0 {
        proof {
            vstd::arithmetic::div_mod::lemma_fundamental_div_mod(year as int, 400);
            vstd::arithmetic::div_mod::lemma_mod_pos_bound(year as int, 400);
        }
        year / 400
    } else {
        let m = -1 - year;
        proof {
            vstd::arithmetic::div_mod::lemma_fundamental_div_mod(m as int, 400);
            vstd::arithmetic::div_mod::lemma_mod_pos_bound(m as int, 400);
            let q = m / 400;
            assert(year == (-q - 1) * 400 + (399 - m % 400)) by (nonlinear_arith)
                requires
                    m == 400 * q + m % 400,
                    year == -1 - m,
            ;
            vstd::arithmetic::div_mod::lemma_fundamental_div_mod_converse(
                year as int,
                400,
                -q - 1,
                399 - m % 400,
            );
        }
        -(m / 400) - 1
    }
}

/// Howard Hinnant's `days_from_civil`, exact for any proleptic Gregorian date.
pub fn days_from_civil(year: i64, month: i64, day: i64) -> (days: i64)
    requires
        civil_fits(year as int, month as int, day as int),
    ensures
        days == civil_days(year as int, month as int, day as int),
{
    let year = year - if month <= 2 {
        1i64
    } else {
        0i64
    };
    let era = era_of(year);
    proof {
        lemma_era(year as int, era as int);
    }
    let year_of_era = year - era * 400;
    let shift: i64 = if month > 2 {
        -3
    } else {
        9
    };
    let day_of_year = (153 * (month + shift) + 2) / 5 + day - 1;
    let day_of_era = year_of_era * 365 + year_of_era / 4 - year_of_era / 100 + day_of_year;
    assert(era * 146_097 + year_of_era * 365 == 365 * year + 97 * era) by (nonlinear_arith)
        requires
            year_of_era == year - era * 400,
    ;
    era * 146_097 + day_of_era - 719_468
}

/// The day count of a date, the way [`days_from_civil`] works it out, when every step of it
/// stays within 64 bits.
pub fn civil_days_checked(year: i64, month: i64, day: i64) -> (days: Option<i64>)
    ensures
        days is Some <==> civil_fits(year as int, month as int, day as int),
        days matches Some(d) ==> d == civil_days(year as int, month as int, day as int),
{
    let y = if month <= 2 {
        match year.checked_sub(1) {
            Some(y) => y,
            None => return None,
        }
    } else {
        year
    };
    let era = era_of(y);
    let era_years = match era.checked_mul(400) {
        Some(e) => e,
        None => return None,
    };
    let shift: i64 = if month > 2 {
        month - 3
    } else {
        month + 9
    };
    let scaled = match shift.checked_mul(153) {
        Some(s) => s,
        None => return None,
    };
    let offset = match scaled.checked_add(2) {
        Some(o) => o,
        None => return None,
    };
    let with_day = match (offset / 5).checked_add(day) {
        Some(w) => w,
        None => return None,
    };
    let day_of_year = match with_day.checked_sub(1) {
        Some(d) => d,
        None => return None,
    };
    let year_of_era = y - era_years;
    let day_of_era = match (year_of_era * 365 + year_of_era / 4 - year_of_era / 100).checked_add(
        day_of_year,
    ) {
        Some(d) => d,
        None => return None,
    };
    let era_days = match era.checked_mul(146_097) {
        Some(e) => e,
        None => return None,
    };
    let total = match era_days.checked_add(day_of_era) {
        Some(t) => t,
        None => return None,
    };
    match total.checked_sub(719_468) {
        Some(days) => {
            Some(days_from_civil(year, month, day))
        },
        None => None,
    }
}

/// The date `days` after 1970-01-01, worked out the way [`civil_from_days`] counts.
pub open spec fn civil_of(days: int) -> (int, int, int) {
    let shifted = days + 719_468;
    let era = shifted / 146_097;
    let day_of_era = shifted - era * 146_097;
    let year_of_era = (day_of_era - day_of_era / 1460 + day_of_era / 36_524 - day_of_era
        / 146_096) / 365;
    let year = year_of_era + era * 400;
    let day_of_year = day_of_era - (365 * year_of_era + year_of_era / 4 - year_of_era / 100);
    let marched = (5 * day_of_year + 2) / 153;
    let day = day_of_year - (153 * marched + 2) / 5 + 1;
    let month = if marched < 10 {
        marched + 3
    } else {
        marched - 9
    };
    (year + if month <= 2 {
        1int
    } else {
        0int
    }, month, day)
}

/// The day of the era: split into centuries, four-year runs, years and the day within.
proof fn lemma_year_of_era(day_of_era: int)
    requires
        0 <= day_of_era <= 146_096,
    ensures
        ({
            let e = day_of_era;
            let yoe = (e - e / 1460 + e / 36_524 - e / 146_096) / 365;
            let doy = e - (365 * yoe + yoe / 4 - yoe / 100);
            &&& 0 <= yoe <= 399
            &&& 0 <= doy <= 365
            &&& doy == 365 ==> is_leap(yoe + 1)
        }),
{
    let e = day_of_era;
    let century: int = if e / 36_524 >= 3 { 3 } else { e / 36_524 };
    vstd::arithmetic::div_mod::lemma_fundamental_div_mod(e, 36_524);
    vstd::arithmetic::div_mod::lemma_mod_pos_bound(e, 36_524);
    let rest1 = e - 36_524 * century;
    assert(0 <= rest1 <= 36_524);
    assert(rest1 == 36_524 ==> century == 3 && e == 146_096);
    let quad = rest1 / 1461;
    vstd::arithmetic::div_mod::lemma_fundamental_div_mod(rest1, 1461);
    vstd::arithmetic::div_mod::lemma_mod_pos_bound(rest1, 1461);
    let rest2 = rest1 - 1461 * quad;
    assert(0 <= quad <= 24);
    assert(0 <= rest2 <= 1460);
    let year: int = if rest2 / 365 >= 3 { 3 } else { rest2 / 365 };
    vstd::arithmetic::div_mod::lemma_fundamental_div_mod(rest2, 365);
    vstd::arithmetic::div_mod::lemma_mod_pos_bound(rest2, 365);
    let k = rest2 - 365 * year;
    assert(0 <= k <= 365);
    assert(k == 365 ==> year == 3 && rest2 == 1460);
    let y = 100 * century + 4 * quad + year;
    assert(e == 36_524 * century + 1461 * quad + 365 * year + k);
    // What each correction term comes to.
    let spill = 24 * century + quad + 365 * year + k;
    let x: int = if spill >= 1460 { 1 } else { 0 };
    assert(e == 1460 * (25 * century + quad + x) + (spill - 1460 * x));
    vstd::arithmetic::div_mod::lemma_fundamental_div_mod_converse(
        e,
        1460,
        25 * century + quad + x,
        spill - 1460 * x,
    );
    if e == 146_096 {
        assert(e / 36_524 == 4);
        assert(e / 146_096 == 1);
        assert(century == 3 && quad == 24 && year == 3 && k == 365);
    } else {
        assert(rest1 < 36_524);
        vstd::arithmetic::div_mod::lemma_fundamental_div_mod_converse(e, 36_524, century, rest1);
        vstd::arithmetic::div_mod::lemma_fundamental_div_mod_converse(e, 146_096, 0, e);
    }
    let big = e - e / 1460 + e / 36_524 - e / 146_096;
    assert(big == 365 * y + (k - x));
    assert(0 <= k - x < 365);
    vstd::arithmetic::div_mod::lemma_fundamental_div_mod_converse(big, 365, y, k - x);
    vstd::arithmetic::div_mod::lemma_fundamental_div_mod_converse(y, 4, 25 * century + quad, year);
    vstd::arithmetic::div_mod::lemma_fundamental_div_mod_converse(
        y,
        100,
        century,
        4 * quad + year,
    );
    assert(e - (365 * y + y / 4 - y / 100) == k);
    if k == 365 {
        let n = y + 1;
        vstd::arithmetic::div_mod::lemma_fundamental_div_mod_converse(n, 4, 25 * century + quad + 1, 0);
        if quad < 24 {
            vstd::arithmetic::div_mod::lemma_fundamental_div_mod_converse(
                n,
                100,
                century,
                4 * quad + 4,
            );
        } else {
            vstd::arithmetic::div_mod::lemma_fundamental_div_mod_converse(n, 400, 1, 0);
        }
    }
}

/// Within a March-based year: the month a day falls in, and the day of that month.
proof fn lemma_day_of_year(day_of_year: int)
    requires
        0 <= day_of_year <= 365,
    ensures
        ({
            let marched = (5 * day_of_year + 2) / 153;
            let day = day_of_year - (153 * marched + 2) / 5 + 1;
            &&& 0 <= marched <= 11
            &&& 1 <= day
            &&& marched < 11 ==> day <= month_length(0, if marched < 10 {
                marched + 3
            } else {
                marched - 9
            })
            &&& marched == 11 ==> day == day_of_year - 336
        }),
{
    let marched = (5 * day_of_year + 2) / 153;
    vstd::arithmetic::div_mod::lemma_fundamental_div_mod(5 * day_of_year + 2, 153);
    vstd::arithmetic::div_mod::lemma_mod_pos_bound(5 * day_of_year + 2, 153);
    let start = (153 * marched + 2) / 5;
    vstd::arithmetic::div_mod::lemma_fundamental_div_mod(153 * marched + 2, 5);
    vstd::arithmetic::div_mod::lemma_mod_pos_bound(153 * marched + 2, 5);
    assert(0 <= marched <= 11);
    if marched == 0 { assert(start == 0); }
    else if marched == 1 { assert(start == 31); }
    else if marched == 2 { assert(start == 61); }
    else if marched == 3 { assert(start == 92); }
    else if marched == 4 { assert(start == 122); }
    else if marched == 5 { assert(start == 153); }
    else if marched == 6 { assert(start == 184); }
    else if marched == 7 { assert(start == 214); }
    else if marched == 8 { assert(start == 245); }
    else if marched == 9 { assert(start == 275); }
    else if marched == 10 { assert(start == 306); }
    else { assert(start == 337); }
}

/// The date a day count names is a date of the calendar, and counting its days gives the
/// count back: [`civil_from_days`] undoes [`days_from_civil`].
pub proof fn lemma_civil_of(days: int)
    ensures
        is_date(civil_of(days).0, civil_of(days).1, civil_of(days).2),
        civil_days(civil_of(days).0, civil_of(days).1, civil_of(days).2) == days,
{
    let shifted = days + 719_468;
    let era = shifted / 146_097;
    vstd::arithmetic::div_mod::lemma_fundamental_div_mod(shifted, 146_097);
    vstd::arithmetic::div_mod::lemma_mod_bound(shifted, 146_097);
    let e = shifted - era * 146_097;
    lemma_year_of_era(e);
    let yoe = (e - e / 1460 + e / 36_524 - e / 146_096) / 365;
    let doy = e - (365 * yoe + yoe / 4 - yoe / 100);
    lemma_day_of_year(doy);
    let marched = (5 * doy + 2) / 153;
    let (year, month, day) = civil_of(days);
    let y = yoe + era * 400;
    assert(march_year(year, month) == y);
    assert(days_before(month) == (153 * marched + 2) / 5);
    lemma_era(y, era);
    assert((y - era * 400) == yoe);
    assert(era * 146_097 + yoe * 365 == 365 * y + 97 * era) by (nonlinear_arith)
        requires
            yoe == y - era * 400,
    ;
    // The leap day, and whether the calendar year it falls in is a leap year.
    if marched == 11 {
        assert(year == y + 1);
        if doy == 365 {
            assert(is_leap(yoe + 1));
            let n = yoe + 1;
            assert(year == n + era * 400);
            vstd::arithmetic::div_mod::lemma_mod_multiples_vanish(era * 100, n, 4);
            vstd::arithmetic::div_mod::lemma_mod_multiples_vanish(era * 4, n, 100);
            vstd::arithmetic::div_mod::lemma_mod_multiples_vanish(era, n, 400);
            assert(era * 400 == 4 * (era * 100) && era * 400 == 100 * (era * 4));
        }
    }
}

/// The first day of a March-based year, counted in days from the year 0's first of March.
pub open spec fn year_start(y: int) -> int {
    365 * y + y / 4 - y / 100 + y / 400
}

/// Where a month falls in a March-based year: March is 0, February 11.
pub open spec fn month_index(month: int) -> int {
    if month > 2 {
        month - 3
    } else {
        month + 9
    }
}

/// The day of its March-based year that a date falls on, counted from 0.
pub open spec fn march_day(month: int, day: int) -> int {
    days_before(month) + day - 1
}

/// One past a multiple of `k` steps `n / k` up by one; any other step leaves it.
proof fn lemma_div_step(n: int, k: int)
    requires
        k > 0,
    ensures
        n / k - (n - 1) / k == if n % k == 0 {
            1int
        } else {
            0int
        },
{
    let q = (n - 1) / k;
    let r = (n - 1) % k;
    vstd::arithmetic::div_mod::lemma_fundamental_div_mod(n - 1, k);
    vstd::arithmetic::div_mod::lemma_mod_bound(n - 1, k);
    if r == k - 1 {
        assert((q + 1) * k == k * q + k) by (nonlinear_arith);
        vstd::arithmetic::div_mod::lemma_fundamental_div_mod_converse(n, k, q + 1, 0);
    } else {
        vstd::arithmetic::div_mod::lemma_fundamental_div_mod_converse(n, k, q, r + 1);
    }
}

/// A March-based year has 366 days when the February that ends it has a leap day, else 365.
proof fn lemma_year_length(y: int)
    ensures
        year_start(y + 1) - year_start(y) == 365 + if is_leap(y + 1) {
            1int
        } else {
            0int
        },
{
    let n = y + 1;
    lemma_div_step(n, 4);
    lemma_div_step(n, 100);
    lemma_div_step(n, 400);
    vstd::arithmetic::div_mod::lemma_fundamental_div_mod(n, 400);
    vstd::arithmetic::div_mod::lemma_fundamental_div_mod(n, 100);
    if n % 400 == 0 {
        vstd::arithmetic::div_mod::lemma_fundamental_div_mod_converse(n, 100, (n / 400) * 4, 0);
    }
    if n % 100 == 0 {
        vstd::arithmetic::div_mod::lemma_fundamental_div_mod_converse(n, 4, (n / 100) * 25, 0);
    }
}

/// Later March-based years start later: no earlier than the year after `a`.
proof fn lemma_year_start_grows(a: int, b: int)
    requires
        a < b,
    ensures
        year_start(b) >= year_start(a + 1),
    decreases b - a,
{
    if b > a + 1 {
        lemma_year_start_grows(a, b - 1);
        lemma_year_length(b - 1);
    }
}

/// A date's day of its March-based year lies within its month, and within the year.
proof fn lemma_place_in_year(year: int, month: int, day: int)
    requires
        is_date(year, month, day),
    ensures
        days_before(month) == (153 * month_index(month) + 2) / 5,
        (153 * month_index(month) + 2) / 5 <= march_day(month, day),
        march_day(month, day) < (153 * (month_index(month) + 1) + 2) / 5,
        march_day(month, day) < 365 + if is_leap(march_year(year, month) + 1) {
            1int
        } else {
            0int
        },
{
    if month == 2 {
        assert(march_year(year, month) + 1 == year);
    }
}

/// Two dates of the calendar with the same day count are the same date.
proof fn lemma_civil_days_injective(a: (int, int, int), b: (int, int, int))
    requires
        is_date(a.0, a.1, a.2),
        is_date(b.0, b.1, b.2),
        civil_days(a.0, a.1, a.2) == civil_days(b.0, b.1, b.2),
    ensures
        a == b,
{
    let ya = march_year(a.0, a.1);
    let yb = march_year(b.0, b.1);
    let da = march_day(a.1, a.2);
    let db = march_day(b.1, b.2);
    assert(civil_days(a.0, a.1, a.2) == year_start(ya) + da - 719_468);
    assert(civil_days(b.0, b.1, b.2) == year_start(yb) + db - 719_468);
    lemma_place_in_year(a.0, a.1, a.2);
    lemma_place_in_year(b.0, b.1, b.2);
    if ya < yb {
        lemma_year_start_grows(ya, yb);
        lemma_year_length(ya);
        assert(false);
    }
    if yb < ya {
        lemma_year_start_grows(yb, ya);
        lemma_year_length(yb);
        assert(false);
    }
    let ia = month_index(a.1);
    let ib = month_index(b.1);
    if ia < ib {
        vstd::arithmetic::div_mod::lemma_div_is_ordered(153 * (ia + 1) + 2, 153 * ib + 2, 5);
        assert(false);
    }
    if ib < ia {
        vstd::arithmetic::div_mod::lemma_div_is_ordered(153 * (ib + 1) + 2, 153 * ia + 2, 5);
        assert(false);
    }
}

/// Counting a date's days and reading the count back gives the date:
/// [`civil_from_days`] undoes [`days_from_civil`] for every date of the calendar.
pub proof fn lemma_date_round_trip(year: int, month: int, day: int)
    requires
        is_date(year, month, day),
    ensures
        civil_of(civil_days(year, month, day)) == (year, month, day),
{
    let n = civil_days(year, month, day);
    lemma_civil_of(n);
    lemma_civil_days_injective(civil_of(n), (year, month, day));
}

/// The inverse of [`days_from_civil`], from the same paper.
pub fn civil_from_days(days: i64) -> (date: (i64, i64, i64))
    requires
        days <= i64::MAX - 719_468,
    ensures
        (date.0 as int, date.1 as int, date.2 as int) == civil_of(days as int),
        is_date(date.0 as int, date.1 as int, date.2 as int),
        civil_days(date.0 as int, date.1 as int, date.2 as int) == days,
{
    proof {
        lemma_civil_of(days as int);
    }
    let days = days + 719_468;
    let era: i64 = if days >= 0 {
        days / 146_097
    } else {
        -((146_096 - days) / 146_097)
    };
    proof {
        if days >= 0 {
            vstd::arithmetic::div_mod::lemma_fundamental_div_mod(days as int, 146_097);
            vstd::arithmetic::div_mod::lemma_mod_pos_bound(days as int, 146_097);
        } else {
            let m = (146_096 - days) as int;
            vstd::arithmetic::div_mod::lemma_fundamental_div_mod(m, 146_097);
            vstd::arithmetic::div_mod::lemma_mod_pos_bound(m, 146_097);
        }
        vstd::arithmetic::div_mod::lemma_fundamental_div_mod_converse(
            days as int,
            146_097,
            era as int,
            days - era * 146_097,
        );
    }
    let day_of_era = days - era * 146_097;
    proof {
        lemma_year_of_era(day_of_era as int);
    }
    let year_of_era = (day_of_era - day_of_era / 1460 + day_of_era / 36_524 - day_of_era
        / 146_096) / 365;
    let year = year_of_era + era * 400;
    let day_of_year = day_of_era - (365 * year_of_era + year_of_era / 4 - year_of_era / 100);
    proof {
        lemma_day_of_year(day_of_year as int);
    }
    let marched = (5 * day_of_year + 2) / 153;
    let day = day_of_year - (153 * marched + 2) / 5 + 1;
    let month = if marched < 10 {
        marched + 3
    } else {
        marched - 9
    };
    (year + if month <= 2 {
        1i64
    } else {
        0i64
    }, month, day)
}

// ---------------------------------------------------------------------------------------
// Days ago
// ---------------------------------------------------------------------------------------

/// The year, month and day a `YYYY-MM-DD` text names: the first three `-`-separated
/// fields, each read as an `i64`, anything after them ignored.
pub open spec fn date_fields(when: Seq<char>) -> Option<(int, int, int)> {
    let fields = split(when, '-');
    if fields.len() >= 3 {
        match (parse_i64(fields[0]), parse_i64(fields[1]), parse_i64(fields[2])) {
            (Some(year), Some(month), Some(day)) => Some((year, month, day)),
            _ => None,
        }
    } else {
        None
    }
}

/// Whether the count of days for `when` can be worked out in 64 bits; beyond these the
/// arithmetic would overflow.
pub open spec fn days_ago_fits(when: Seq<char>, today: int) -> bool {
    match date_fields(when) {
        Some((year, month, day)) => {
            &&& civil_fits(year, month, day)
            &&& in_i64(today - civil_days(year, month, day))
        },
        None => true,
    }
}

/// `when` is the `YYYY-MM-DD` a commit summary carries.
pub fn days_ago(when: &str, today: i64) -> (ago: Option<i64>)
    requires
        days_ago_fits(when@, today as int),
    ensures
        match date_fields(when@) {
            Some((year, month, day)) => ago == Some((today - civil_days(year, month, day)) as i64),
            None => ago is None,
        },
{
    let text = chars_of(when);
    let fields = split_at_char(&text, '-');
    if fields.len() < 3 {
        return None;
    }
    let year = match parse_i64_text(&fields[0]) {
        Some(year) => year,
        None => return None,
    };
    let month = match parse_i64_text(&fields[1]) {
        Some(month) => month,
        None => return None,
    };
    let day = match parse_i64_text(&fields[2]) {
        Some(day) => day,
        None => return None,
    };
    Some(today - days_from_civil(year, month, day))
}

/// Whether [`days_ago`] can count the days for `when` in 64 bits.
pub fn days_ago_in_range(when: &str, today: i64) -> (fits: bool)
    ensures
        fits == days_ago_fits(when@, today as int),
{
    let text = chars_of(when);
    let fields = split_at_char(&text, '-');
    if fields.len() < 3 {
        return true;
    }
    let year = match parse_i64_text(&fields[0]) {
        Some(year) => year,
        None => return true,
    };
    let month = match parse_i64_text(&fields[1]) {
        Some(month) => month,
        None => return true,
    };
    let day = match parse_i64_text(&fields[2]) {
        Some(day) => day,
        None => return true,
    };
    match civil_days_checked(year, month, day) {
        Some(days) => today.checked_sub(days).is_some(),
        None => false,
    }
}

// ---------------------------------------------------------------------------------------
// Buckets
// ---------------------------------------------------------------------------------------

/// "a week ago", "3 weeks ago".
pub open spec fn plural_text(count: int, unit: Seq<char>) -> Seq<char> {
    if count == 1 {
        "a "@ + unit + " ago"@
    } else {
        signed_decimal(count) + " "@ + unit + "s ago"@
    }
}

/// How long ago `days` is, the way it is said.
pub open spec fn bucket_text(days: int) -> Seq<char> {
    if days <= 0 {
        "today"@
    } else if days == 1 {
        "yesterday"@
    } else if days <= 6 {
        decimal(days as nat) + " days ago"@
    } else if days <= 13 {
        "last week"@
    } else if days <= 30 {
        plural_text(days / 7, "week"@)
    } else if days <= 364 {
        plural_text(if days / 30 >= 1 { days / 30 } else { 1 }, "month"@)
    } else {
        plural_text(if days / 365 >= 1 { days / 365 } else { 1 }, "year"@)
    }
}

/// "yesterday" is said of exactly one day ago, and two to six days are counted out.
pub proof fn lemma_yesterday_is_one_day(days: int)
    ensures
        (bucket_text(days) == "yesterday"@) <==> days == 1,
        2 <= days <= 6 ==> bucket_text(days) == decimal(days as nat) + " days ago"@,
{
    reveal_strlit("yesterday");
    reveal_strlit("today");
    reveal_strlit(" days ago");
    reveal_strlit("last week");
    reveal_strlit(" ago");
    reveal_strlit("s ago");
    let text = bucket_text(days);
    if days <= 0 {
        assert(text.len() != "yesterday"@.len());
    } else if days >= 2 {
        assert("yesterday"@.last() == 'y');
        if days <= 6 {
            assert((decimal(days as nat) + " days ago"@).last() == 'o');
        } else if days <= 13 {
            assert("last week"@.last() == 'k');
        } else {
            let count = if days <= 30 {
                days / 7
            } else if days <= 364 {
                if days / 30 >= 1 { days / 30 } else { 1 }
            } else {
                if days / 365 >= 1 { days / 365 } else { 1 }
            };
            let unit = if days <= 30 {
                "week"@
            } else if days <= 364 {
                "month"@
            } else {
                "year"@
            };
            assert(text == plural_text(count, unit));
            assert(("a "@ + unit + " ago"@).last() == 'o');
            assert((signed_decimal(count) + " "@ + unit + "s ago"@).last() == 'o');
        }
        assert(text.last() != 'y');
    }
}

fn plural(count: i64, unit: &str) -> (said: String)
    ensures
        said@ == plural_text(count as int, unit@),
{
    let mut text: Vec<char>;
    if count == 1 {
        text = chars_of("a ");
        append(&mut text, &chars_of(unit));
        append(&mut text, &chars_of(" ago"));
    } else {
        text = signed_decimal_of(count);
        append(&mut text, &chars_of(" "));
        append(&mut text, &chars_of(unit));
        append(&mut text, &chars_of("s ago"));
    }
    string_of(&text)
}

pub fn bucket(days: i64) -> (said: String)
    ensures
        said@ == bucket_text(days as int),
{
    if days <= 0 {
        string_of(&chars_of("today"))
    } else if days == 1 {
        string_of(&chars_of("yesterday"))
    } else if days <= 6 {
        let mut text = decimal_of(days as u64);
        append(&mut text, &chars_of(" days ago"));
        string_of(&text)
    } else if days <= 13 {
        string_of(&chars_of("last week"))
    } else if days <= 30 {
        plural(days / 7, "week")
    } else if days <= 364 {
        plural(if days / 30 >= 1 { days / 30 } else { 1 }, "month")
    } else {
        plural(if days / 365 >= 1 { days / 365 } else { 1 }, "year")
    }
}


// ---------------------------------------------------------------------------------------
// Today, and the moment of a commit
// ---------------------------------------------------------------------------------------

#[verifier::external_type_specification]
#[verifier::external_body]
pub struct ExSystemTime(std::time::SystemTime);

/// std's `SystemTime::now`: whatever the clock says.
#[verifier::external_body]
fn now() -> std::time::SystemTime {
    std::time::SystemTime::now()
}

/// std's `SystemTime::duration_since(UNIX_EPOCH)`, in whole seconds; `None` for a moment
/// before the epoch.
#[verifier::external_body]
fn seconds_since_epoch(moment: &std::time::SystemTime) -> Option<u64> {
    moment.duration_since(std::time::UNIX_EPOCH).ok().map(|since| since.as_secs())
}

/// The day a clock reading falls on, counted from the epoch: the seconds are taken as an
/// `i64` the way `as` takes them, and a clock before the epoch reads as day zero.
pub open spec fn day_of_reading(seconds: Option<u64>) -> int {
    match seconds {
        Some(s) => {
            let signed = if s <= i64::MAX { s as int } else { s - 0x1_0000_0000_0000_0000 };
            if signed >= 0 {
                signed / SECONDS_PER_DAY as int
            } else {
                -((-signed) / SECONDS_PER_DAY as int)
            }
        },
        None => 0,
    }
}

/// The day a clock reading falls on; see [`day_of_reading`].
pub fn day_of(seconds: Option<u64>) -> (day: i64)
    ensures
        day == day_of_reading(seconds),
{
    match seconds {
        Some(s) => {
            if s <= i64::MAX as u64 {
                (s as i64) / SECONDS_PER_DAY
            } else {
                let below: u64 = u64::MAX - s + 1;
                assert(below <= 0x8000_0000_0000_0000u64);
                proof {
                    vstd::arithmetic::div_mod::lemma_div_is_ordered(
                        below as int,
                        0x8000_0000_0000_0000int,
                        86_400,
                    );
                }
                -((below / (SECONDS_PER_DAY as u64)) as i64)
            }
        },
        None => 0,
    }
}

/// Days since the epoch, by the system clock: the day some reading of the clock falls on,
/// as [`day_of_reading`] counts it. Which reading the clock gives is not stated.
pub fn today() -> (day: i64)
    ensures
        exists|seconds: Option<u64>| day == #[trigger] day_of_reading(seconds),
{
    let seconds = seconds_since_epoch(&now());
    let day = day_of(seconds);
    assert(day == day_of_reading(seconds));
    day
}

/// A number as `{:02}` writes it.
pub open spec fn padded(n: int) -> Seq<char> {
    if 0 <= n < 10 {
        seq!['0'] + decimal(n as nat)
    } else {
        signed_decimal(n)
    }
}

fn padded_of(n: i64) -> (text: Vec<char>)
    ensures
        text@ == padded(n as int),
{
    if 0 <= n && n < 10 {
        let mut text: Vec<char> = Vec::new();
        text.push('0');
        append(&mut text, &decimal_of(n as u64));
        text
    } else {
        signed_decimal_of(n)
    }
}

/// The day a local second falls on and the second of that day.
fn day_and_second(local: i64) -> (split: (i64, i64))
    ensures
        split.0 == (local as int) / 86_400int,
        split.1 == (local as int) % 86_400int,
        split.0 <= i64::MAX / 86_400 + 1,
{
    let days: i64 = if local >= 0 {
        local / SECONDS_PER_DAY
    } else {
        -((-(local + 1)) / SECONDS_PER_DAY) - 1
    };
    proof {
        if local >= 0 {
            vstd::arithmetic::div_mod::lemma_fundamental_div_mod(local as int, 86_400);
            vstd::arithmetic::div_mod::lemma_mod_pos_bound(local as int, 86_400);
        } else {
            let m = (-(local + 1)) as int;
            vstd::arithmetic::div_mod::lemma_fundamental_div_mod(m, 86_400);
            vstd::arithmetic::div_mod::lemma_mod_pos_bound(m, 86_400);
        }
        vstd::arithmetic::div_mod::lemma_fundamental_div_mod_converse(
            local as int,
            86_400,
            days as int,
            local - days * 86_400,
        );
    }
    let rest: i64 = if local >= 0 {
        local % SECONDS_PER_DAY
    } else {
        SECONDS_PER_DAY - 1 - (-(local + 1)) % SECONDS_PER_DAY
    };
    (days, rest)
}

/// The hour on a twelve-hour clock, and which half of the day it is.
pub open spec fn clock_of(hour: int) -> (int, Seq<char>) {
    if hour == 0 {
        (12int, "AM"@)
    } else if hour <= 11 {
        (hour, "AM"@)
    } else if hour == 12 {
        (12int, "PM"@)
    } else {
        (hour - 12, "PM"@)
    }
}

fn twelve_hour(hour: i64) -> (clock: (i64, &'static str))
    ensures
        clock.0 == clock_of(hour as int).0,
        clock.1@ == clock_of(hour as int).1,
{
    if hour == 0 {
        (12i64, "AM")
    } else if hour <= 11 {
        (hour, "AM")
    } else if hour == 12 {
        (12i64, "PM")
    } else {
        (hour - 12, "PM")
    }
}

/// `06/26/2023 @ 2:48 PM` for the given epoch second on a clock `offset` seconds east of
/// UTC.
pub open spec fn stamp_text(seconds: int, offset: int) -> Seq<char> {
    let local = seconds + offset;
    let days = local / SECONDS_PER_DAY as int;
    let rest = local % SECONDS_PER_DAY as int;
    let (year, month, day) = civil_of(days);
    let (clock, half) = clock_of(rest / 3600);
    padded(month) + "/"@ + padded(day) + "/"@ + signed_decimal(year) + " @ "@ + signed_decimal(
        clock,
    ) + ":"@ + padded(rest % 3600 / 60) + " "@ + half
}

/// `06/26/2023 @ 2:48 PM`, on the clock of whoever made the commit: `seconds` is the epoch
/// second and `offset` the seconds east of UTC.
pub fn stamp(seconds: i64, offset: i32) -> (text: String)
    requires
        i64::MIN <= seconds + offset <= i64::MAX,
    ensures
        text@ == stamp_text(seconds as int, offset as int),
{
    let local = seconds + offset as i64;
    let (days, rest) = day_and_second(local);
    let (year, month, day) = civil_from_days(days);
    let (clock, half) = twelve_hour(rest / 3600);
    let minute = rest % 3600 / 60;
    let mut text = padded_of(month);
    append(&mut text, &chars_of("/"));
    append(&mut text, &padded_of(day));
    append(&mut text, &chars_of("/"));
    append(&mut text, &signed_decimal_of(year));
    append(&mut text, &chars_of(" @ "));
    append(&mut text, &signed_decimal_of(clock));
    append(&mut text, &chars_of(":"));
    append(&mut text, &padded_of(minute));
    append(&mut text, &chars_of(" "));
    append(&mut text, &chars_of(half));
    string_of(&text)
}

} // verus!
