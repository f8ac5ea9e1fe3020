//! Date labels in UTC.

use crate::text::{self, decimal_text};
use vstd::prelude::*;

verus! {

/// Whether a year has a leap day.
pub open spec fn leap(year: int) -> bool {
    year % 4 == 0 && (year % 100 != 0 || year % 400 == 0)
}

/// The days from the first of January of the year 1 to that of a year.
pub open spec fn days_before_year(year: int) -> int {
    365 * (year - 1) + (year - 1) / 4 - (year - 1) / 100 + (year - 1) / 400
}

/// The days of a month.
pub open spec fn month_length(year: int, month: int) -> int {
    if month == 2 {
        if leap(year) {
            29
        } else {
            28
        }
    } else if month == 4 || month == 6 || month == 9 || month == 11 {
        30
    } else {
        31
    }
}

/// The days of a year before a month.
pub open spec fn days_before_month(year: int, month: int) -> int
    decreases month,
{
    if month <= 1 {
        0
    } else {
        days_before_month(year, month - 1) + month_length(year, month - 1)
    }
}

/// Whether a year, a month, and a day make a date.
pub open spec fn is_date(year: int, month: int, day: int) -> bool {
    1 <= month <= 12 && 1 <= day <= month_length(year, month)
}

/// The days from the first of January 1970 to a date.
pub open spec fn day_number(year: int, month: int, day: int) -> int {
    days_before_year(year) + days_before_month(year, month) + day - 1 - days_before_year(1970)
}

/// The date that lies a number of days behind the first of January 1970.
pub open spec fn date_of(days: int) -> (int, int, int) {
    choose|date: (int, int, int)|
        is_date(date.0, date.1, date.2) && #[trigger] day_number(date.0, date.1, date.2) == days
}

/// A year is 366 days long if it is a leap year and 365 days otherwise.
#[verifier::spinoff_prover]
#[verifier::rlimit(40)]
pub proof fn years_follow_each_other(year: int)
    ensures
        days_before_year(year + 1) - days_before_year(year) == (if leap(year) {
            366int
        } else {
            365
        }),
{
    assert(year / 4 - (year - 1) / 4 == (if year % 4 == 0 {
        1int
    } else {
        0
    }));
    assert(year / 100 - (year - 1) / 100 == (if year % 100 == 0 {
        1int
    } else {
        0
    }));
    assert(year / 400 - (year - 1) / 400 == (if year % 400 == 0 {
        1int
    } else {
        0
    }));
}

proof fn years_ascend(a: int, b: int)
    requires
        a <= b,
    ensures
        days_before_year(a) <= days_before_year(b),
    decreases b - a,
{
    if a < b {
        years_ascend(a, b - 1);
        years_follow_each_other(b - 1);
    }
}

proof fn months_ascend(year: int, a: int, b: int)
    requires
        1 <= a <= b,
    ensures
        days_before_month(year, a) <= days_before_month(year, b),
    decreases b - a,
{
    if a < b {
        months_ascend(year, a, b - 1);
    }
}

proof fn months_add_up(year: int)
    ensures
        days_before_month(year, 1) == 0,
        days_before_month(year, 2) == 31,
        ({
            let feb: int = if leap(year) {
                29
            } else {
                28
            };
            &&& days_before_month(year, 3) == 31 + feb
            &&& days_before_month(year, 4) == 62 + feb
            &&& days_before_month(year, 5) == 92 + feb
            &&& days_before_month(year, 6) == 123 + feb
            &&& days_before_month(year, 7) == 153 + feb
            &&& days_before_month(year, 8) == 184 + feb
            &&& days_before_month(year, 9) == 215 + feb
            &&& days_before_month(year, 10) == 245 + feb
            &&& days_before_month(year, 11) == 276 + feb
            &&& days_before_month(year, 12) == 306 + feb
            &&& days_before_month(year, 13) == 337 + feb
        }),
{
    reveal_with_fuel(days_before_month, 14);
}

proof fn dates_stay_in_their_year(year: int, month: int, day: int)
    requires
        is_date(year, month, day),
    ensures
        0 <= days_before_month(year, month) + day - 1 < days_before_year(year + 1)
            - days_before_year(year),
{
    months_add_up(year);
    months_ascend(year, 1, month);
    months_ascend(year, month + 1, 13);
    years_follow_each_other(year);
    assert(days_before_month(year, month + 1) == days_before_month(year, month) + month_length(
        year,
        month,
    ));
}

/// No two dates have the same day number.
pub proof fn day_numbers_tell_dates_apart(a: (int, int, int), b: (int, int, int))
    requires
        is_date(a.0, a.1, a.2),
        is_date(b.0, b.1, b.2),
        day_number(a.0, a.1, a.2) == day_number(b.0, b.1, b.2),
    ensures
        a == b,
{
    dates_stay_in_their_year(a.0, a.1, a.2);
    dates_stay_in_their_year(b.0, b.1, b.2);
    if a.0 < b.0 {
        years_ascend(a.0 + 1, b.0);
    } else if b.0 < a.0 {
        years_ascend(b.0 + 1, a.0);
    } else if a.1 < b.1 {
        months_ascend(a.0, a.1 + 1, b.1);
        assert(days_before_month(a.0, a.1 + 1) == days_before_month(a.0, a.1) + month_length(
            a.0,
            a.1,
        ));
    } else if b.1 < a.1 {
        months_ascend(a.0, b.1 + 1, a.1);
        assert(days_before_month(a.0, b.1 + 1) == days_before_month(a.0, b.1) + month_length(
            b.0,
            b.1,
        ));
    }
}

fn floor_div(value: i64, by: i64) -> (quotient: i64)
    requires
        by > 0,
    ensures
        quotient == value as int / by as int,
        quotient * by <= value < (quotient + 1) * by,
{
    if value >= 0 {
        let quotient: i64 = value / by;
        proof {
            vstd::arithmetic::div_mod::lemma_fundamental_div_mod(value as int, by as int);
            assert((value / by) * by == by * (value / by)) by (nonlinear_arith);
            assert((quotient + 1) * by == quotient * by + by) by (nonlinear_arith);
        }
        quotient
    } else {
        let back: i64 = -(value + 1);
        let part: i64 = back / by;
        let quotient: i64 = -part - 1;
        proof {
            let q = quotient as int;
            let p = part as int;
            let d = by as int;
            vstd::arithmetic::div_mod::lemma_fundamental_div_mod(back as int, d);
            assert(d * p <= back as int && (back as int) < d * p + d);
            assert(q * d == -(d * p) - d) by (nonlinear_arith)
                requires
                    q == -p - 1,
            ;
            assert((q + 1) * d == -(d * p)) by (nonlinear_arith)
                requires
                    q == -p - 1,
            ;
            let r = value as int - q * d;
            assert(0 <= r < d);
            assert(value as int == q * d + r);
            vstd::arithmetic::div_mod::lemma_fundamental_div_mod_converse(value as int, d, q, r);
        }
        quotient
    }
}

fn floor_rem(value: i64, by: i64) -> (rest: i64)
    requires
        by > 0,
    ensures
        rest == value as int % by as int,
        0 <= rest < by,
{
    if value >= 0 {
        value % by
    } else {
        let back: i64 = -(value + 1);
        let part: i64 = back % by;
        let rest: i64 = by - 1 - part;
        proof {
            let d = by as int;
            let p = back as int / d;
            vstd::arithmetic::div_mod::lemma_fundamental_div_mod(back as int, d);
            assert((-p - 1) * d == -(d * p) - d) by (nonlinear_arith);
            vstd::arithmetic::div_mod::lemma_fundamental_div_mod_converse(
                value as int,
                d,
                -p - 1,
                rest as int,
            );
        }
        rest
    }
}

proof fn years_of_an_era(era: int, century: int, cycle: int, part: int)
    requires
        0 <= century <= 3,
        0 <= cycle <= 24,
        0 <= part <= 3,
    ensures
        days_before_year(400 * era + 100 * century + 4 * cycle + part + 1) == 146_097 * era + 36_524
            * century + 1_461 * cycle + 365 * part,
        part == 3 && (cycle < 24 || century == 3) ==> leap(
            400 * era + 100 * century + 4 * cycle + part + 1,
        ),
{
    let y = 400 * era + 100 * century + 4 * cycle + part;
    assert(y / 4 == 100 * era + 25 * century + cycle);
    assert(y / 100 == 4 * era + century);
    assert(y / 400 == era);
    if part == 3 {
        assert((y + 1) % 4 == 0);
        if cycle == 24 && century == 3 {
            assert((y + 1) % 400 == 0);
        } else if cycle < 24 {
            assert((y + 1) % 100 == 4 * cycle + 4);
        }
    }
}

/// Counting from the first of March, the months start at fixed days.
proof fn months_from_march(y: int, doy: int, mp: int)
    requires
        0 <= doy <= 365,
        doy == 365 ==> leap(y + 1),
        mp == (5 * doy + 2) / 153,
    ensures
        ({
            let day = doy - (153 * mp + 2) / 5 + 1;
            let (year, month) = if mp < 10 {
                (y, mp + 3)
            } else {
                (y + 1, mp - 9)
            };
            &&& is_date(year, month, day)
            &&& day_number(year, month, day) == days_before_year(y + 1) + doy - 719_468
        }),
{
    years_follow_each_other(y);
    months_add_up(y);
    months_add_up(y + 1);
    assert(days_before_year(1970) == 719_162);
    assert(0 <= mp <= 11);
    if mp == 0 {
    } else if mp == 1 {
    } else if mp == 2 {
    } else if mp == 3 {
    } else if mp == 4 {
    } else if mp == 5 {
    } else if mp == 6 {
    } else if mp == 7 {
    } else if mp == 8 {
    } else if mp == 9 {
    } else if mp == 10 {
    } else {
    }
}

/// The date that lies a number of days behind the first of January 1970.
fn civil_from_days(days: i64) -> (date: (i64, i64, i64))
    requires
        -1_000_000_000_000 <= days <= 1_000_000_000_000,
    ensures
        is_date(date.0 as int, date.1 as int, date.2 as int),
        day_number(date.0 as int, date.1 as int, date.2 as int) == days,
        -10_000_000_000 <= date.0 <= 10_000_000_000,
{
    // Count from the first of March of the year 0, so that the leap day is last.
    let z: i64 = days + 719_468;
    let era: i64 = floor_div(z, 146_097);
    let doe: i64 = floor_rem(z, 146_097);
    assert(z == era * 146_097 + doe);
    let century: i64 = if doe / 36_524 > 3 {
        3
    } else {
        doe / 36_524
    };
    let doc: i64 = doe - century * 36_524;
    let cycle: i64 = doc / 1_461;
    let doq: i64 = doc - cycle * 1_461;
    let part: i64 = if doq / 365 > 3 {
        3
    } else {
        doq / 365
    };
    let doy: i64 = doq - part * 365;
    let march_year: i64 = era * 400 + century * 100 + cycle * 4 + part;
    let mp: i64 = (5 * doy + 2) / 153;
    let day: i64 = doy - (153 * mp + 2) / 5 + 1;
    let (year, month): (i64, i64) = if mp < 10 {
        (march_year, mp + 3)
    } else {
        (march_year + 1, mp - 9)
    };
    proof {
        assert(0 <= century <= 3);
        assert(0 <= doc <= 36_524);
        assert(cycle <= 24);
        assert(0 <= doq <= 1_460);
        assert(0 <= doy <= 365);
        years_of_an_era(era as int, century as int, cycle as int, part as int);
        if doy == 365 {
            assert(part == 3 && doq == 1_460);
            if cycle == 24 {
                assert(doc == 36_524);
                assert(century == 3);
            }
        }
        months_from_march(march_year as int, doy as int, mp as int);
    }
    (year, month, day)
}

/// The short name of a month.
pub open spec fn month_name(month: int) -> Seq<char> {
    if month == 1 {
        "Jan"@
    } else if month == 2 {
        "Feb"@
    } else if month == 3 {
        "Mar"@
    } else if month == 4 {
        "Apr"@
    } else if month == 5 {
        "May"@
    } else if month == 6 {
        "Jun"@
    } else if month == 7 {
        "Jul"@
    } else if month == 8 {
        "Aug"@
    } else if month == 9 {
        "Sep"@
    } else if month == 10 {
        "Oct"@
    } else if month == 11 {
        "Nov"@
    } else {
        "Dec"@
    }
}

fn name_of_month(month: i64) -> (name: &'static str)
    ensures
        name@ == month_name(month as int),
{
    match month {
        1 => "Jan",
        2 => "Feb",
        3 => "Mar",
        4 => "Apr",
        5 => "May",
        6 => "Jun",
        7 => "Jul",
        8 => "Aug",
        9 => "Sep",
        10 => "Oct",
        11 => "Nov",
        _ => "Dec",
    }
}

/// A number in decimal, with a sign if it is negative.
pub open spec fn signed_decimal(value: int) -> Seq<char> {
    if value < 0 {
        seq!['-'] + text::decimal((-value) as nat)
    } else {
        text::decimal(value as nat)
    }
}

/// A number in decimal, with two digits at least.
pub open spec fn two_digits(value: int) -> Seq<char> {
    if value < 10 {
        seq!['0'] + text::decimal(value as nat)
    } else {
        text::decimal(value as nat)
    }
}

fn append_two_digits(out: &mut String, value: i64)
    requires
        0 <= value < 100,
    ensures
        final(out)@ == old(out)@ + two_digits(value as int),
{
    let ghost start = out@;
    if value < 10 {
        out.push('0');
    }
    out.append(decimal_text(value as u64).as_str());
    assert(out@ =~= start + two_digits(value as int));
}

/// The hour on a twelve-hour clock.
pub open spec fn clock_hour(hour: int) -> int {
    if hour % 12 == 0 {
        12
    } else {
        hour % 12
    }
}

/// A date and a time of day as a label.
pub open spec fn label(year: int, month: int, day: int, hour: int, minute: int) -> Seq<char> {
    month_name(month) + " "@ + text::decimal(day as nat) + ", "@ + signed_decimal(year) + " "@
        + two_digits(clock_hour(hour)) + ":"@ + two_digits(minute) + " "@ + if hour < 12 {
        "AM"@
    } else {
        "PM"@
    }
}

/// The label of a time in milliseconds since the start of 1970; the time zero
/// has none.
pub open spec fn date_label(ms: int) -> Seq<char> {
    if ms == 0 {
        Seq::empty()
    } else {
        let date = date_of(ms / 86_400_000);
        let seconds = ms % 86_400_000 / 1_000;
        label(date.0, date.1, date.2, seconds / 3_600, seconds % 3_600 / 60)
    }
}

/// The label of a time in milliseconds since the start of 1970; the time zero
/// has none.
pub fn format_date(ms: i64) -> (out: String)
    ensures
        out@ == date_label(ms as int),
{
    let mut out = String::new();
    if ms == 0 {
        assert(out@ =~= Seq::empty());
        return out;
    }
    let days: i64 = floor_div(ms, 86_400_000);
    let rest: i64 = floor_rem(ms, 86_400_000);
    let seconds: i64 = rest / 1_000;
    let hour: i64 = seconds / 3_600;
    let minute: i64 = seconds % 3_600 / 60;
    let (year, month, day) = civil_from_days(days);
    proof {
        let date = (year as int, month as int, day as int);
        assert(is_date(date.0, date.1, date.2) && day_number(date.0, date.1, date.2) == days);
        day_numbers_tell_dates_apart(date, date_of(days as int));
    }
    out.append(name_of_month(month));
    out.append(" ");
    out.append(decimal_text(day as u64).as_str());
    out.append(", ");
    if year < 0 {
        out.push('-');
        out.append(decimal_text((-year) as u64).as_str());
    } else {
        out.append(decimal_text(year as u64).as_str());
    }
    out.append(" ");
    let clock: i64 = if hour % 12 == 0 {
        12
    } else {
        hour % 12
    };
    append_two_digits(&mut out, clock);
    out.append(":");
    append_two_digits(&mut out, minute);
    out.append(" ");
    if hour < 12 {
        out.append("AM");
    } else {
        out.append("PM");
    }
    assert(out@ =~= date_label(ms as int));
    out
}

/// The label of a time names its month, its day, its year, and the minute of its day on a
/// twelve-hour clock: midnight and noon are twelve, the hours before noon come with `AM`
/// and those from noon on with `PM`.
pub proof fn labels_name_the_minute(
    year: int,
    month: int,
    day: int,
    hour: int,
    minute: int,
    rest: int,
)
    requires
        is_date(year, month, day),
        0 <= hour < 24,
        0 <= minute < 60,
        0 <= rest < 60_000,
    ensures
        ({
            let ms = day_number(year, month, day) * 86_400_000 + hour * 3_600_000 + minute * 60_000
                + rest;
            let clock = if hour == 0 {
                12
            } else if hour <= 12 {
                hour
            } else {
                hour - 12
            };
            let spelled = |value: int|
                if value < 10 {
                    "0"@ + text::decimal(value as nat)
                } else {
                    text::decimal(value as nat)
                };
            let shown_year = if year < 0 {
                "-"@ + text::decimal((-year) as nat)
            } else {
                text::decimal(year as nat)
            };
            ms != 0 ==> date_label(ms) == month_name(month) + " "@ + text::decimal(day as nat) + ", "@
                + shown_year + " "@ + spelled(clock) + ":"@ + spelled(minute) + " "@ + (if hour
                >= 12 {
                "PM"@
            } else {
                "AM"@
            })
        }),
        date_label(0) == Seq::<char>::empty(),
{
    let days = day_number(year, month, day);
    let part = hour * 3_600_000 + minute * 60_000 + rest;
    let ms = days * 86_400_000 + part;
    assert(0 <= part < 86_400_000);
    assert(ms / 86_400_000 == days);
    assert(ms % 86_400_000 == part);
    let seconds = part / 1_000;
    assert(seconds / 3_600 == hour);
    assert(seconds % 3_600 / 60 == minute);
    let date = (year, month, day);
    assert(is_date(date.0, date.1, date.2) && day_number(date.0, date.1, date.2) == days);
    day_numbers_tell_dates_apart(date, date_of(days));
    assert(date_of(days) == date);
    reveal_strlit("0");
    reveal_strlit("-");
    assert("0"@ =~= seq!['0']);
    assert("-"@ =~= seq!['-']);
}

/// The months have their names.
pub proof fn months_have_their_names()
    ensures
        seq![
            month_name(1),
            month_name(2),
            month_name(3),
            month_name(4),
            month_name(5),
            month_name(6),
            month_name(7),
            month_name(8),
            month_name(9),
            month_name(10),
            month_name(11),
            month_name(12),
        ] == seq![
            "Jan"@,
            "Feb"@,
            "Mar"@,
            "Apr"@,
            "May"@,
            "Jun"@,
            "Jul"@,
            "Aug"@,
            "Sep"@,
            "Oct"@,
            "Nov"@,
            "Dec"@,
        ],
{
}

/// The day after the last day of a month is the first day of the next one, and the day
/// after the last day of December is the first day of the next year; any other day is
/// followed by the next day of its month. The count begins with the year 1970.
pub proof fn days_follow_each_other(year: int, month: int, day: int)
    requires
        is_date(year, month, day),
    ensures
        day_number(1970, 1, 1) == 0,
        day < month_length(year, month) ==> day_number(year, month, day + 1) == day_number(
            year,
            month,
            day,
        ) + 1,
        day == month_length(year, month) && month < 12 ==> day_number(year, month + 1, 1)
            == day_number(year, month, day) + 1,
        day == month_length(year, month) && month == 12 ==> day_number(year + 1, 1, 1)
            == day_number(year, month, day) + 1,
{
    months_add_up(year);
    months_add_up(year + 1);
    years_follow_each_other(year);
    assert(days_before_month(year, month + 1) == days_before_month(year, month) + month_length(
        year,
        month,
    ));
}

} // verus!
