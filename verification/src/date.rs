//! Calendar dates: the date a number of days after 1 January 1970, and
//! its `YYYY-MM-DD` text, computed with Howard Hinnant's `civil_from_days`
//! and proved to name the right day.
use vstd::prelude::*;

use crate::text::{
    decimal, fixed_digits, lemma_decimal_len, lemma_fixed_digits_order, lemma_text_le_concat,
    lemma_zero_pad_fixed, pow10, push_decimal_padded, text_le, zero_pad,
};

verus! {

/// Leap years of the Gregorian calendar.
pub open spec fn is_leap(y: int) -> bool {
    y % 4 == 0 && (y % 100 != 0 || y % 400 == 0)
}

/// The number of days in month `m` of year `y`.
pub open spec fn month_len(y: int, m: int) -> int {
    if m == 2 {
        if is_leap(y) {
            29
        } else {
            28
        }
    } else if m == 4 || m == 6 || m == 9 || m == 11 {
        30
    } else {
        31
    }
}

/// The date after `(y, m, d)`.
pub open spec fn next_date(date: (int, int, int)) -> (int, int, int) {
    let (y, m, d) = date;
    if d < month_len(y, m) {
        (y, m, d + 1)
    } else if m < 12 {
        (y, m + 1, 1)
    } else {
        (y + 1, 1, 1)
    }
}

/// The date `n` days after 1 January 1970.
pub open spec fn date_after_epoch(n: nat) -> (int, int, int)
    decreases n,
{
    if n == 0 {
        (1970, 1, 1)
    } else {
        next_date(date_after_epoch((n - 1) as nat))
    }
}

/// `YYYY-MM-DD` for the day that `secs` seconds after the Unix epoch fall
/// on, years padded to four digits.
pub open spec fn date_text(secs: nat) -> Seq<char> {
    let (y, m, d) = date_after_epoch(secs / 86400);
    zero_pad(decimal(y as nat), 4) + seq!['-'] + zero_pad(decimal(m as nat), 2) + seq!['-']
        + zero_pad(decimal(d as nat), 2)
}

/// The civil date `(year, month, day)` of the day `days` after 1970-01-01
/// (Howard Hinnant's `civil_from_days`).
pub open spec fn civil_from_days(days: int) -> (int, int, int) {
    let z = days + 719468;
    let era = z / 146097;
    let doe = z % 146097;
    let yoe = (doe - doe / 1460 + doe / 36524 - doe / 146096) / 365;
    let y = yoe + era * 400;
    let doy = doe - (365 * yoe + yoe / 4 - yoe / 100);
    let mp = (5 * doy + 2) / 153;
    let d = doy - (153 * mp + 2) / 5 + 1;
    let m = if mp < 10 {
        mp + 3
    } else {
        mp - 9
    };
    (if m <= 2 {
        y + 1
    } else {
        y
    }, m, d)
}

/// The calendar date of a day given by its era, its year of the era
/// (which starts on 1 March) and its day of that year.
pub open spec fn date_in_era(era: int, yoe: int, doy: int) -> (int, int, int) {
    let mp = (5 * doy + 2) / 153;
    let d = doy - (153 * mp + 2) / 5 + 1;
    let m = if mp < 10 {
        mp + 3
    } else {
        mp - 9
    };
    (if m <= 2 {
        yoe + era * 400 + 1
    } else {
        yoe + era * 400
    }, m, d)
}

/// Hinnant's `civil_from_days` names the right date: day `n` after the epoch
/// is the date `n` days after 1 January 1970.
pub proof fn law_civil_from_days(n: nat)
    ensures
        civil_from_days(n as int) == date_after_epoch(n),
    decreases n,
{
    if n == 0 {
        assert(civil_from_days(0) == (1970int, 1int, 1int));
    } else {
        law_civil_from_days((n - 1) as nat);
        law_next_day(n - 1);
    }
}

/// Consecutive days fall on consecutive dates: the date of the day after
/// `days` is the date after the date of `days`.
pub proof fn law_next_day(days: int)
    requires
        days >= 0,
    ensures
        civil_from_days(days + 1) == next_date(civil_from_days(days)),
{
    let z = days + 719468;
    let era = z / 146097;
    let doe = z % 146097;
    lemma_civil_bounds(doe);
    let yoe = (doe - doe / 1460 + doe / 36524 - doe / 146096) / 365;
    let doy = doe - (365 * yoe + yoe / 4 - yoe / 100);
    assert(civil_from_days(days) == date_in_era(era, yoe, doy));
    lemma_leap_shift(yoe + 1, era);
    let leap = (yoe + 1) % 4 == 0 && ((yoe + 1) % 100 != 0 || yoe == 399);
    assert(is_leap(yoe + era * 400 + 1) == leap);
    if doe < 146096 {
        assert((z + 1) / 146097 == era && (z + 1) % 146097 == doe + 1);
        lemma_year_step(doe as u32);
        lemma_civil_bounds(doe + 1);
        let n = doe + 1;
        let yoe2 = (n - n / 1460 + n / 36524 - n / 146096) / 365;
        let doy2 = n - (365 * yoe2 + yoe2 / 4 - yoe2 / 100);
        assert(civil_from_days(days + 1) == date_in_era(era, yoe2, doy2));
        if doy < 364 || (doy == 364 && leap) {
            lemma_month_step(doy as u32);
            lemma_month_days(doy as u32);
            lemma_step_within_year(era, yoe, doy, leap);
        } else {
            lemma_month_days(doy as u32);
            lemma_last_day_is_leap(doe as u32);
            lemma_step_new_year(era, yoe, doy, leap);
        }
    } else {
        assert(doe == 146096);
        assert((z + 1) / 146097 == era + 1 && (z + 1) % 146097 == 0);
        assert(yoe == 399 && doy == 365);
        assert(civil_from_days(days) == (era * 400 + 400, 2int, 29int));
        assert(civil_from_days(days + 1) == ((era + 1) * 400, 3int, 1int));
    }
}

/// `a` comes no later than `b`, by year, then month, then day.
pub open spec fn date_le(a: (int, int, int), b: (int, int, int)) -> bool {
    ||| a.0 < b.0
    ||| (a.0 == b.0 && a.1 < b.1)
    ||| (a.0 == b.0 && a.1 == b.1 && a.2 <= b.2)
}

proof fn lemma_dates_ordered(n1: nat, n2: nat)
    requires
        n1 <= n2,
    ensures
        date_le(date_after_epoch(n1), date_after_epoch(n2)),
    decreases n2,
{
    if n1 < n2 {
        lemma_dates_ordered(n1, (n2 - 1) as nat);
    }
}

/// Dates never go backwards: a later time of the clock gives the same date
/// or a later one.
pub proof fn law_dates_never_go_back(secs1: nat, secs2: nat)
    requires
        secs1 <= secs2,
    ensures
        date_le(date_after_epoch(secs1 / 86400), date_after_epoch(secs2 / 86400)),
{
    assert(secs1 / 86400 <= secs2 / 86400) by (nonlinear_arith)
        requires
            secs1 <= secs2,
    ;
    lemma_dates_ordered(secs1 / 86400, secs2 / 86400);
}

/// The last era's days before year 10000 stay in year 9999 or before.
proof fn lemma_last_days_before_10000(doe: u32)
    requires
        doe <= 146036,
    ensures
        ({
            let yoe = (doe - doe / 1460 + doe / 36524 - doe / 146096) / 365;
            let doy = doe - (365 * yoe + yoe / 4 - yoe / 100);
            let mp = (5 * doy + 2) / 153;
            !(yoe == 399 && mp >= 10)
        }),
{
    assert(doe <= 146036 ==> ({
        let yoe = (doe - doe / 1460 + doe / 36524 - doe / 146096) / 365;
        let doy = doe - (365 * yoe + yoe / 4 - yoe / 100);
        let mp = (5 * doy + 2) / 153;
        !(yoe == 399 && mp >= 10)
    })) by (bit_vector);
}

proof fn lemma_civil_year_range(days: int)
    requires
        0 <= days < 2932897,
    ensures
        1600 <= civil_from_days(days).0 <= 9999,
{
    let z = days + 719468;
    let era = z / 146097;
    let doe = z % 146097;
    lemma_civil_bounds(doe);
    assert(4 <= era <= 24);
    if era == 24 {
        lemma_last_days_before_10000(doe as u32);
    }
}

/// Up to the last day of the year 9999 the date text has ten characters:
/// four for the year, two for the month, two for the day, and two dashes.
pub proof fn law_date_text_len(secs: nat)
    requires
        secs < 253402300800,
    ensures
        date_text(secs).len() == 10,
{
    let n = secs / 86400;
    assert(n < 2932897);
    law_civil_from_days(n);
    lemma_civil_year_range(n as int);
    law_date_is_real(n);
    let (y, m, d) = date_after_epoch(n);
    reveal_with_fuel(pow10, 5);
    lemma_decimal_len(y as nat, 4);
    lemma_decimal_len(m as nat, 2);
    lemma_decimal_len(d as nat, 2);
}

/// The date after `n` days, written to fixed places.
proof fn lemma_date_text_fixed(secs: nat)
    requires
        secs < 253402300800,
    ensures
        ({
            let (y, m, d) = date_after_epoch(secs / 86400);
            &&& 1 <= y <= 9999
            &&& 1 <= m <= 12
            &&& 1 <= d <= 31
            &&& date_text(secs) == fixed_digits(y as nat, 4) + (seq!['-'] + (fixed_digits(
                m as nat,
                2,
            ) + (seq!['-'] + fixed_digits(d as nat, 2))))
        }),
{
    let n = secs / 86400;
    assert(n < 2932897);
    law_civil_from_days(n);
    lemma_civil_year_range(n as int);
    law_date_is_real(n);
    let (y, m, d) = date_after_epoch(n);
    reveal_with_fuel(pow10, 5);
    lemma_zero_pad_fixed(y as nat, 4);
    lemma_zero_pad_fixed(m as nat, 2);
    lemma_zero_pad_fixed(d as nat, 2);
    assert(date_text(secs) =~= fixed_digits(y as nat, 4) + (seq!['-'] + (fixed_digits(m as nat, 2)
        + (seq!['-'] + fixed_digits(d as nat, 2)))));
}

/// Dates never go backwards as text either: a later reading gives a date
/// text that sorts no earlier, character by character.
pub proof fn law_date_texts_in_order(secs1: nat, secs2: nat)
    requires
        secs1 <= secs2,
        secs2 < 253402300800,
    ensures
        text_le(date_text(secs1), date_text(secs2)),
{
    law_dates_never_go_back(secs1, secs2);
    lemma_date_text_fixed(secs1);
    lemma_date_text_fixed(secs2);
    let (y1, m1, d1) = date_after_epoch(secs1 / 86400);
    let (y2, m2, d2) = date_after_epoch(secs2 / 86400);
    reveal_with_fuel(pow10, 5);
    lemma_fixed_digits_order(y1 as nat, y2 as nat, 4);
    lemma_fixed_digits_order(m1 as nat, m2 as nat, 2);
    lemma_fixed_digits_order(d1 as nat, d2 as nat, 2);
    let dash = seq!['-'];
    let dt1 = dash + fixed_digits(d1 as nat, 2);
    let dt2 = dash + fixed_digits(d2 as nat, 2);
    let md1 = fixed_digits(m1 as nat, 2) + dt1;
    let md2 = fixed_digits(m2 as nat, 2) + dt2;
    lemma_text_le_concat(fixed_digits(y1 as nat, 4), dash + md1, fixed_digits(y2 as nat, 4), dash
        + md2);
    lemma_text_le_concat(dash, md1, dash, md2);
    lemma_text_le_concat(fixed_digits(m1 as nat, 2), dt1, fixed_digits(m2 as nat, 2), dt2);
    lemma_text_le_concat(dash, fixed_digits(d1 as nat, 2), dash, fixed_digits(d2 as nat, 2));
}

/// Every day after the epoch falls on a real date: a month from 1 to 12,
/// and a day within that month's length in that year (29 February only in
/// leap years).
pub proof fn law_date_is_real(n: nat)
    ensures
        1 <= date_after_epoch(n).1 <= 12,
        1 <= date_after_epoch(n).2 <= month_len(date_after_epoch(n).0, date_after_epoch(n).1),
{
    law_civil_from_days(n);
    lemma_civil_date_is_real(n as int);
}

proof fn lemma_civil_date_is_real(days: int)
    requires
        days >= 0,
    ensures
        1 <= civil_from_days(days).1 <= 12,
        1 <= civil_from_days(days).2 <= month_len(civil_from_days(days).0, civil_from_days(days).1),
{
    let z = days + 719468;
    let era = z / 146097;
    let doe = z % 146097;
    lemma_civil_bounds(doe);
    lemma_last_day_is_leap(doe as u32);
    let yoe = (doe - doe / 1460 + doe / 36524 - doe / 146096) / 365;
    let doy = doe - (365 * yoe + yoe / 4 - yoe / 100);
    lemma_month_days(doy as u32);
    lemma_leap_shift(yoe + 1, era);
}

proof fn lemma_step_within_year(era: int, yoe: int, doy: int, leap: bool)
    requires
        0 <= doy <= 364,
        era >= 0,
        0 <= yoe <= 399,
        leap == is_leap(yoe + era * 400 + 1),
        doy < 364 || (doy == 364 && leap),
        ({
            let mp = (5 * doy + 2) / 153;
            let d = doy - (153 * mp + 2) / 5 + 1;
            let n = doy + 1;
            let mp2 = (5 * n + 2) / 153;
            let d2 = n - (153 * mp2 + 2) / 5 + 1;
            let len: int = if mp == 11 {
                29
            } else if mp == 1 || mp == 3 || mp == 6 || mp == 8 {
                30
            } else {
                31
            };
            &&& mp <= 11
            &&& 1 <= d
            &&& mp == 11 ==> (d <= 28 || (d == 29 && doy == 365))
            &&& if d < len {
                mp2 == mp && d2 == d + 1
            } else {
                mp2 == mp + 1 && d2 == 1
            }
        }),
    ensures
        date_in_era(era, yoe, doy + 1) == next_date(date_in_era(era, yoe, doy)),
{
}

proof fn lemma_step_new_year(era: int, yoe: int, doy: int, leap: bool)
    requires
        0 <= doy <= 365,
        era >= 0,
        0 <= yoe <= 398,
        leap == is_leap(yoe + era * 400 + 1),
        !(doy < 364 || (doy == 364 && leap)),
        doy == 365 ==> leap,
        ({
            let mp = (5 * doy + 2) / 153;
            let d = doy - (153 * mp + 2) / 5 + 1;
            &&& mp <= 11
            &&& 1 <= d
            &&& mp == 11 ==> (d <= 28 || (d == 29 && doy == 365))
            &&& d <= 31
        }),
    ensures
        date_in_era(era, yoe + 1, 0) == next_date(date_in_era(era, yoe, doy)),
{
    assert((5 * doy + 2) / 153 == 11);
}

#[verifier::rlimit(100)]
proof fn lemma_year_step(doe: u32)
    requires
        doe < 146096,
    ensures
        ({
            let yoe = (doe - doe / 1460 + doe / 36524 - doe / 146096) / 365;
            let doy = doe - (365 * yoe + yoe / 4 - yoe / 100);
            let n = doe + 1;
            let yoe2 = (n - n / 1460 + n / 36524 - n / 146096) / 365;
            let doy2 = n - (365 * yoe2 + yoe2 / 4 - yoe2 / 100);
            let leap = (yoe + 1) % 4 == 0 && ((yoe + 1) % 100 != 0 || yoe == 399);
            if doy < 364 || (doy == 364 && leap) {
                yoe2 == yoe && doy2 == doy + 1
            } else {
                yoe2 == yoe + 1 && doy2 == 0
            }
        }),
{
    assert(doe < 146096 ==> ({
        let yoe = (doe - doe / 1460 + doe / 36524 - doe / 146096) / 365;
        let doy = doe - (365 * yoe + yoe / 4 - yoe / 100);
        let n = doe + 1;
        let yoe2 = (n - n / 1460 + n / 36524 - n / 146096) / 365;
        let doy2 = n - (365 * yoe2 + yoe2 / 4 - yoe2 / 100);
        let leap = (yoe + 1) % 4 == 0 && ((yoe + 1) % 100 != 0 || yoe == 399);
        if doy < 364 || (doy == 364 && leap) {
            yoe2 == yoe && doy2 == doy + 1
        } else {
            yoe2 == yoe + 1 && doy2 == 0
        }
    })) by (bit_vector);
}

/// From day `doy` of a year that starts on 1 March to the next day of the
/// same year: the same month and the next day, or the first of the next
/// month once the month is full.
proof fn lemma_month_step(doy: u32)
    requires
        doy <= 364,
    ensures
        ({
            let mp = (5 * doy + 2) / 153;
            let d = doy - (153 * mp + 2) / 5 + 1;
            let n = doy + 1;
            let mp2 = (5 * n + 2) / 153;
            let d2 = n - (153 * mp2 + 2) / 5 + 1;
            let len: u32 = if mp == 11 {
                29
            } else if mp == 1 || mp == 3 || mp == 6 || mp == 8 {
                30
            } else {
                31
            };
            if d < len {
                mp2 == mp && d2 == d + 1
            } else {
                mp2 == mp + 1 && d2 == 1
            }
        }),
{
    assert(doy <= 364 ==> ({
        let mp = (5 * doy + 2) / 153;
        let d = doy - (153 * mp + 2) / 5 + 1;
        let n = doy + 1;
        let mp2 = (5 * n + 2) / 153;
        let d2 = n - (153 * mp2 + 2) / 5 + 1;
        let len: u32 = if mp == 11 {
            29
        } else if mp == 1 || mp == 3 || mp == 6 || mp == 8 {
            30
        } else {
            31
        };
        if d < len {
            mp2 == mp && d2 == d + 1
        } else {
            mp2 == mp + 1 && d2 == 1
        }
    })) by (bit_vector);
}

/// Within a year that starts on 1 March, day `doy` falls in a month no
/// longer than its length; only the year's 366th day is a 29 February.
proof fn lemma_month_days(doy: u32)
    requires
        doy <= 365,
    ensures
        ({
            let mp = (5 * doy + 2) / 153;
            let d = doy - (153 * mp + 2) / 5 + 1;
            &&& mp <= 11
            &&& 1 <= d
            &&& (mp == 1 || mp == 3 || mp == 6 || mp == 8) ==> d <= 30
            &&& mp == 11 ==> (d <= 28 || (d == 29 && doy == 365))
            &&& d <= 31
        }),
{
    assert(doy <= 365 ==> ({
        let mp = (5 * doy + 2) / 153;
        let d = doy - (153 * mp + 2) / 5 + 1;
        &&& mp <= 11
        &&& 1 <= d
        &&& (mp == 1 || mp == 3 || mp == 6 || mp == 8) ==> d <= 30
        &&& mp == 11 ==> (d <= 28 || (d == 29 && doy == 365))
        &&& d <= 31
    })) by (bit_vector);
}

proof fn lemma_last_day_is_leap(doe: u32)
    requires
        doe < 146097,
    ensures
        ({
            let yoe = (doe - doe / 1460 + doe / 36524 - doe / 146096) / 365;
            let doy = doe - (365 * yoe + yoe / 4 - yoe / 100);
            doy == 365 ==> (yoe + 1) % 4 == 0 && ((yoe + 1) % 100 != 0 || yoe == 399)
        }),
{
    assert(doe < 146097 ==> ({
        let yoe = (doe - doe / 1460 + doe / 36524 - doe / 146096) / 365;
        let doy = doe - (365 * yoe + yoe / 4 - yoe / 100);
        doy == 365 ==> (yoe + 1) % 4 == 0 && ((yoe + 1) % 100 != 0 || yoe == 399)
    })) by (bit_vector);
}

/// Whole eras of 400 years do not change whether a year is a leap year.
proof fn lemma_leap_shift(y: int, era: int)
    requires
        era >= 0,
    ensures
        (y + era * 400) % 4 == y % 4,
        (y + era * 400) % 100 == y % 100,
        (y + era * 400) % 400 == y % 400,
{
    assert((y + era * 400) % 4 == y % 4) by (nonlinear_arith)
        requires
            era >= 0,
    ;
    assert((y + era * 400) % 100 == y % 100) by (nonlinear_arith)
        requires
            era >= 0,
    ;
    assert((y + era * 400) % 400 == y % 400) by (nonlinear_arith)
        requires
            era >= 0,
    ;
}

pub proof fn lemma_civil_bounds(doe: int)
    requires
        0 <= doe < 146097,
    ensures
        ({
            let yoe = (doe - doe / 1460 + doe / 36524 - doe / 146096) / 365;
            let doy = doe - (365 * yoe + yoe / 4 - yoe / 100);
            let mp = (5 * doy + 2) / 153;
            let d = doy - (153 * mp + 2) / 5 + 1;
            &&& 0 <= yoe <= 399
            &&& 0 <= doy <= 365
            &&& 0 <= mp <= 11
            &&& 1 <= d <= 31
        }),
{
    let yoe = (doe - doe / 1460 + doe / 36524 - doe / 146096) / 365;
    assert(0 <= yoe <= 399);
    let doy = doe - (365 * yoe + yoe / 4 - yoe / 100);
    assert(0 <= doy <= 365);
    let mp = (5 * doy + 2) / 153;
    assert(0 <= mp <= 11);
    let d = doy - (153 * mp + 2) / 5 + 1;
    assert(1 <= d <= 31);
}

/// `YYYY-MM-DD` for the day that `secs` seconds after the Unix epoch fall
/// on, in the proleptic Gregorian calendar.
pub fn date_of_secs(secs: u64) -> (r: String)
    ensures
        r@ == date_text(secs as nat),
{
    let days: u64 = secs / 86400;
    let z: u64 = days + 719468;
    let era: u64 = z / 146097;
    let doe: u64 = z % 146097;
    proof {
        lemma_civil_bounds(doe as int);
    }
    let yoe: u64 = (doe - doe / 1460 + doe / 36524 - doe / 146096) / 365;
    let y: u64 = yoe + era * 400;
    let doy: u64 = doe - (365 * yoe + yoe / 4 - yoe / 100);
    let mp: u64 = (5 * doy + 2) / 153;
    let d: u64 = doy - (153 * mp + 2) / 5 + 1;
    let m: u64 = if mp < 10 {
        mp + 3
    } else {
        mp - 9
    };
    let y: u64 = if m <= 2 {
        y + 1
    } else {
        y
    };
    proof {
        law_civil_from_days(days as nat);
    }
    let mut out = String::new();
    push_decimal_padded(&mut out, y, 4);
    out.push('-');
    push_decimal_padded(&mut out, m, 2);
    out.push('-');
    push_decimal_padded(&mut out, d, 2);
    out
}

} // verus!
