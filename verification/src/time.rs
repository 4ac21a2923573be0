//! Dates out of seconds.

use crate::text;
use vstd::prelude::*;

verus! {

// ── The calendar ──

/// Whether a year is a leap year.
pub open spec fn leap(y: int) -> bool {
    y % 4 == 0 && (y % 100 != 0 || y % 400 == 0)
}

/// How many days a month has.
pub open spec fn days_in_month(y: int, m: int) -> int {
    if m == 2 {
        if leap(y) {
            29
        } else {
            28
        }
    } else if m == 4 || m == 6 || m == 9 || m == 11 {
        30
    } else {
        31
    }
}

/// Whether there is such a date.
pub open spec fn valid_date(y: int, m: int, d: int) -> bool {
    1 <= m <= 12 && 1 <= d <= days_in_month(y, m)
}

/// How many leap years there are from the year 1 up to the year `y`.
pub open spec fn leaps_upto(y: int) -> int {
    y / 4 - y / 100 + y / 400
}

/// How many days of a year lie before a month.
pub open spec fn days_before_month(y: int, m: int) -> int
    decreases m,
{
    if m <= 1 {
        0
    } else {
        days_before_month(y, m - 1) + days_in_month(y, m - 1)
    }
}

/// How many days a date lies behind the first of January 1970.
pub open spec fn day_number(y: int, m: int, d: int) -> int {
    365 * (y - 1970) + leaps_upto(y - 1) - leaps_upto(1969) + days_before_month(y, m) + d - 1
}

/// The days before each month.
proof fn lemma_days_before(y: int, m: int)
    requires
        1 <= m <= 12,
    ensures
        days_before_month(y, m) == (if m == 1 {
            0int
        } else if m == 2 {
            31int
        } else {
            (153 * (m - 3) + 2) / 5 + 59 + (if leap(y) {
                1int
            } else {
                0int
            })
        }),
{
    reveal_with_fuel(days_before_month, 13);
}

/// A day of a period of 400 years lies in a year that starts in March.
proof fn lemma_year_of_period(doe: int, yoe: int, doy: int)
    requires
        0 <= doe < 146097,
        yoe == (doe - doe / 1460 + doe / 36524 - doe / 146096) / 365,
        doy == doe - (365 * yoe + yoe / 4 - yoe / 100),
    ensures
        0 <= yoe <= 399,
        0 <= doy <= 365,
        doy == 365 ==> (yoe % 4 == 3 && (yoe % 100 != 99 || yoe == 399)),
{
    let c = doe / 36524;
    if doe == 146096 {
        assert(yoe == 399);
        assert(doy == 365);
    } else {
        assert(0 <= c <= 3);
        let rest = doe - 36524 * c;
        assert(0 <= rest < 36524);
        let k = rest / 1461;
        let day = rest - 1461 * k;
        assert(0 <= k <= 24 && 0 <= day < 1461);
        lemma_year_of_parts(doe, c, k, day, yoe, doy);
    }
}

/// The same, with the day taken apart into centuries, leap periods and days.
proof fn lemma_year_of_parts(doe: int, c: int, k: int, day: int, yoe: int, doy: int)
    requires
        0 <= c <= 3,
        0 <= k <= 24,
        0 <= day < 1461,
        1461 * k + day < 36524,
        doe == 36524 * c + 1461 * k + day,
        yoe == (doe - doe / 1460 + doe / 36524 - doe / 146096) / 365,
        doy == doe - (365 * yoe + yoe / 4 - yoe / 100),
    ensures
        0 <= yoe <= 399,
        0 <= doy <= 365,
        doy == 365 ==> (yoe % 4 == 3 && yoe % 100 != 99),
{
    assert(doe / 36524 == c);
    assert(doe / 146096 == 0);
    let more = 24 * c + k + day;
    let b: int = if more >= 1460 {
        1
    } else {
        0
    };
    assert(doe == 1460 * (25 * c + k) + more);
    assert(doe / 1460 == 25 * c + k + b);
    let x = 36500 * c + 1460 * k + day - b;
    assert(yoe == x / 365);
    let t = (day - b) / 365;
    assert(0 <= t <= 3);
    assert(x == 365 * (100 * c + 4 * k) + (day - b));
    assert(yoe == 100 * c + 4 * k + t);
    assert(yoe / 4 == 25 * c + k);
    assert(yoe / 100 == c);
    assert(doy == day - 365 * t);
}

/// A day of a year that starts in March lies in a month.
proof fn lemma_month_of_year(doy: int, mp: int, d: int)
    requires
        0 <= doy <= 365,
        mp == (5 * doy + 2) / 153,
        d == doy - (153 * mp + 2) / 5 + 1,
    ensures
        0 <= mp <= 11,
        1 <= d <= 31,
        mp == 1 || mp == 3 || mp == 6 || mp == 8 ==> d <= 30,
        mp == 11 ==> d <= 29,
        mp == 11 && d == 29 ==> doy == 365,
{
}

/// The date that lies so many days behind the first of January 1970.
pub fn civil_from_days(z: i64) -> (r: (i64, u32, u32))
    requires
        z <= i64::MAX - 719_468,
    ensures
        valid_date(r.0 as int, r.1 as int, r.2 as int),
        day_number(r.0 as int, r.1 as int, r.2 as int) == z,
{
    let z1: i64 = z + 719_468;
    let era: i64 = floor_div(z1, 146_097);
    let doe: i64 = z1 - era * 146_097;
    let yoe: i64 = (doe - doe / 1460 + doe / 36524 - doe / 146_096) / 365;
    let ghost doy_g = doe - (365 * yoe + yoe / 4 - yoe / 100);
    proof {
        lemma_year_of_period(doe as int, yoe as int, doy_g);
    }
    let y: i64 = yoe + era * 400;
    let doy: i64 = doe - (365 * yoe + yoe / 4 - yoe / 100);
    let mp: i64 = (5 * doy + 2) / 153;
    let ghost d_g = doy - (153 * mp + 2) / 5 + 1;
    proof {
        lemma_month_of_year(doy as int, mp as int, d_g);
    }
    let d: u32 = (doy - (153 * mp + 2) / 5 + 1) as u32;
    let m: u32 = if mp < 10 {
        (mp + 3) as u32
    } else {
        (mp - 9) as u32
    };
    let year: i64 = if m <= 2 {
        y + 1
    } else {
        y
    };
    proof {
        lemma_date(z as int, era as int, doe as int, yoe as int, doy as int, mp as int);
    }
    (year, m, d)
}

/// Division that rounds down.
fn floor_div(a: i64, b: i64) -> (r: i64)
    requires
        b == 146_097,
    ensures
        r == a as int / b as int,
        0 <= a - r * b < b,
{
    if a >= 0 {
        a / b
    } else {
        let q: i64 = (-(a + 1)) / b;
        let r: i64 = -q - 1;
        assert(r == a as int / b as int) by (nonlinear_arith)
            requires
                a < 0,
                b == 146_097,
                q == (-(a as int + 1)) / (b as int),
                r == -q - 1,
        ;
        r
    }
}

/// The parts of a day number make up its date.
proof fn lemma_date(z: int, era: int, doe: int, yoe: int, doy: int, mp: int)
    requires
        z + 719_468 == era * 146_097 + doe,
        0 <= yoe <= 399,
        0 <= doy <= 365,
        doy == doe - (365 * yoe + yoe / 4 - yoe / 100),
        doy == 365 ==> (yoe % 4 == 3 && (yoe % 100 != 99 || yoe == 399)),
        mp == (5 * doy + 2) / 153,
        0 <= mp <= 11,
    ensures
        ({
            let y = yoe + era * 400;
            let d = doy - (153 * mp + 2) / 5 + 1;
            let m = if mp < 10 {
                mp + 3
            } else {
                mp - 9
            };
            let year = if m <= 2 {
                y + 1
            } else {
                y
            };
            valid_date(year, m, d) && day_number(year, m, d) == z
        }),
{
    let y = yoe + era * 400;
    let d = doy - (153 * mp + 2) / 5 + 1;
    lemma_month_of_year(doy, mp, d);
    lemma_period(y, yoe, era);
    assert(365 * (y - 1970) + leaps_upto(y) - 477 + 59 + doy == z);
    if mp < 10 {
        lemma_days_before(y, mp + 3);
        lemma_leap_step(y);
    } else if mp == 10 {
        lemma_days_before(y + 1, 1);
    } else {
        lemma_days_before(y + 1, 2);
        if d == 29 {
            lemma_leap_february(y, yoe, era);
        }
    }
}

/// A year of a period of 400 years, divided.
proof fn lemma_period(y: int, yoe: int, era: int)
    requires
        0 <= yoe <= 399,
        y == yoe + era * 400,
    ensures
        y / 4 == yoe / 4 + era * 100,
        y / 100 == yoe / 100 + era * 4,
        y / 400 == era,
        leaps_upto(y) == yoe / 4 - yoe / 100 + 97 * era,
        leaps_upto(1969) == 477,
{
}

/// The leap years are counted one by one.
proof fn lemma_leap_step(y: int)
    ensures
        leaps_upto(y) - leaps_upto(y - 1) == (if leap(y) {
            1int
        } else {
            0int
        }),
{
}

/// The year behind a long year that starts in March is a leap year.
proof fn lemma_leap_february(y: int, yoe: int, era: int)
    requires
        0 <= yoe <= 399,
        y == yoe + era * 400,
        yoe % 4 == 3 && (yoe % 100 != 99 || yoe == 399),
    ensures
        leap(y + 1),
{
    assert(y + 1 == 4 * ((y + 1) / 4)) by {
        let q = yoe / 4;
        assert(yoe == 4 * q + 3);
        assert(y + 1 == 4 * (q + 1 + 100 * era));
    }
    if yoe == 399 {
        assert(y + 1 == 400 * (era + 1));
    } else {
        let q = yoe / 100;
        let r = yoe % 100;
        assert(yoe == 100 * q + r && 0 <= r < 99);
        assert(y + 1 == 100 * (q + 4 * era) + (r + 1));
        assert((y + 1) % 100 == r + 1);
    }
}

/// The days of one year lie in front of those of the next.
proof fn lemma_year_bounds(y: int, m: int, d: int)
    requires
        valid_date(y, m, d),
    ensures
        day_number(y, 1, 1) <= day_number(y, m, d) < day_number(y + 1, 1, 1),
{
    lemma_days_before(y, m);
    lemma_days_before(y, 12);
    reveal_with_fuel(days_before_month, 2);
    lemma_leap_step(y);
}

/// The first days of years ascend.
proof fn lemma_years_ascend(a: int, b: int)
    requires
        a < b,
    ensures
        day_number(a + 1, 1, 1) <= day_number(b, 1, 1),
    decreases b - a,
{
    reveal_with_fuel(days_before_month, 2);
    if a + 1 < b {
        lemma_years_ascend(a, b - 1);
    }
}

/// Every day number has one date: the calendar can be read both ways.
pub proof fn law_dates_are_unique(y1: int, m1: int, d1: int, y2: int, m2: int, d2: int)
    requires
        valid_date(y1, m1, d1),
        valid_date(y2, m2, d2),
        day_number(y1, m1, d1) == day_number(y2, m2, d2),
    ensures
        y1 == y2,
        m1 == m2,
        d1 == d2,
{
    lemma_year_bounds(y1, m1, d1);
    lemma_year_bounds(y2, m2, d2);
    if y1 < y2 {
        lemma_years_ascend(y1, y2);
    } else if y2 < y1 {
        lemma_years_ascend(y2, y1);
    }
    lemma_days_before(y1, m1);
    lemma_days_before(y1, m2);
}

// ── Texts ──

/// A number with at least two digits.
pub open spec fn two_digits(n: int) -> Seq<char> {
    if n < 10 {
        "0"@ + text::dec(n as nat)
    } else {
        text::dec(n as nat)
    }
}

/// A number with at least four digits.
pub open spec fn four_digits(n: int) -> Seq<char> {
    if n < 10 {
        "000"@ + text::dec(n as nat)
    } else if n < 100 {
        "00"@ + text::dec(n as nat)
    } else if n < 1000 {
        "0"@ + text::dec(n as nat)
    } else {
        text::dec(n as nat)
    }
}

/// A number with at least two digits.
fn pad_two(n: u64) -> (r: String)
    ensures
        r@ == two_digits(n as int),
{
    if n < 10 {
        let mut s = "0".to_owned();
        s.append(text::decimal(n as u128).as_str());
        s
    } else {
        text::decimal(n as u128)
    }
}

/// A number with at least four digits.
fn pad_four(n: u64) -> (r: String)
    ensures
        r@ == four_digits(n as int),
{
    let lead = if n < 10 {
        "000"
    } else if n < 100 {
        "00"
    } else if n < 1000 {
        "0"
    } else {
        ""
    };
    let mut s = lead.to_owned();
    s.append(text::decimal(n as u128).as_str());
    proof {
        reveal_strlit("");
        if n >= 1000 {
            assert(s@ =~= text::dec(n as nat));
        }
    }
    s
}

/// Whether a text is the date and time of so many seconds behind the start of
/// 1970 in local time.
pub open spec fn shows(s: Seq<char>, secs: int, sep: Seq<char>, with_secs: bool) -> bool {
    exists|y: int, m: int, d: int| #[trigger]
        valid_date(y, m, d) && day_number(y, m, d) == secs / 86400 && s == four_digits(y) + "-"@
            + two_digits(m) + "-"@ + two_digits(d) + sep + two_digits(secs % 86400 / 3600) + ":"@
            + two_digits(secs % 86400 % 3600 / 60) + (if with_secs {
            ":"@ + two_digits(secs % 86400 % 60)
        } else {
            Seq::empty()
        })
}

/// The date and time, eight hours ahead of universal time, of a number of
/// seconds; a question mark for times before 1970.
pub fn fmt_ts_cst(secs_utc: i64, sep: &str, with_secs: bool) -> (r: String)
    requires
        secs_utc <= i64::MAX - 28_800,
    ensures
        secs_utc + 28_800 < 0 ==> r@ == "?"@,
        secs_utc + 28_800 >= 0 ==> shows(r@, secs_utc + 28_800, sep@, with_secs),
{
    let secs: i64 = secs_utc + 28_800;
    if secs < 0 {
        return "?".to_owned();
    }
    let days: i64 = secs / 86400;
    let rem: i64 = secs % 86400;
    let (y, m, d) = civil_from_days(days);
    proof {
        lemma_not_before(y as int, m as int, d as int);
    }
    let mut s = pad_four(y as u64);
    s.append("-");
    s.append(pad_two(m as u64).as_str());
    s.append("-");
    s.append(pad_two(d as u64).as_str());
    s.append(sep);
    s.append(pad_two((rem / 3600) as u64).as_str());
    s.append(":");
    s.append(pad_two((rem % 3600 / 60) as u64).as_str());
    let ghost head = s@;
    if with_secs {
        let mut t = ":".to_owned();
        t.append(pad_two((rem % 60) as u64).as_str());
        s.append(t.as_str());
    } else {
        assert(head + Seq::<char>::empty() =~= head);
    }
    proof {
        assert(valid_date(y as int, m as int, d as int));
        assert(shows(s@, secs as int, sep@, with_secs));
    }
    s
}

/// A date that is not before 1970 has a year that is not.
proof fn lemma_not_before(y: int, m: int, d: int)
    requires
        valid_date(y, m, d),
        day_number(y, m, d) >= 0,
    ensures
        y >= 1970,
{
    if y < 1970 {
        lemma_year_bounds(y, m, d);
        lemma_years_ascend(y, 1970);
        reveal_with_fuel(days_before_month, 2);
    }
}

} // verus!
