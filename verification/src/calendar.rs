//! Dates: the day that a number of days since 1970-01-01 is.

use vstd::prelude::*;
use vstd::string::*;

use crate::split::zero_padded;
use crate::text::{decimal, decimal_text, push_char};

verus! {

/// A year has a 29th of February.
pub open spec fn leap(y: int) -> bool {
    y % 4 == 0 && (y % 100 != 0 || y % 400 == 0)
}

/// The number of days of a month.
pub open spec fn month_days(y: int, m: int) -> int {
    if m == 2 {
        if leap(y) {
            29
        } else {
            28
        }
    } else if m == 4 || m == 6 || m == 9 || m == 11 {
        30
    } else {
        31
    }
}

/// There is such a day.
pub open spec fn is_date(y: int, m: int, d: int) -> bool {
    1 <= m <= 12 && 1 <= d <= month_days(y, m)
}

/// The number of days of a year before a month.
pub open spec fn days_before_month(y: int, m: int) -> int
    decreases m,
{
    if m <= 1 {
        0
    } else {
        days_before_month(y, m - 1) + month_days(y, m - 1)
    }
}

/// The number of days before a year, counted from year 1.
pub open spec fn days_before_year(y: int) -> int {
    let p = y - 1;
    365 * p + p / 4 - p / 100 + p / 400
}

/// The number of a day, counted from 1970-01-01.
pub open spec fn day_number(y: int, m: int, d: int) -> int {
    days_before_year(y) - days_before_year(1970) + days_before_month(y, m) + d - 1
}

/// A year has 365 days, or 366 if it is a leap year.
pub proof fn years_have_their_days(y: int)
    ensures
        days_before_year(y + 1) - days_before_year(y) == if leap(y) { 366int } else { 365int },
        days_before_month(y, 13) == if leap(y) { 366int } else { 365int },
{
    reveal_with_fuel(days_before_month, 14);
}

proof fn lemma_months(y: int)
    ensures
        days_before_month(y, 1) == 0,
        days_before_month(y, 2) == 31,
        days_before_month(y, 3) == 59 + (if leap(y) { 1int } else { 0int }),
        days_before_month(y, 4) == 90 + (if leap(y) { 1int } else { 0int }),
        days_before_month(y, 5) == 120 + (if leap(y) { 1int } else { 0int }),
        days_before_month(y, 6) == 151 + (if leap(y) { 1int } else { 0int }),
        days_before_month(y, 7) == 181 + (if leap(y) { 1int } else { 0int }),
        days_before_month(y, 8) == 212 + (if leap(y) { 1int } else { 0int }),
        days_before_month(y, 9) == 243 + (if leap(y) { 1int } else { 0int }),
        days_before_month(y, 10) == 273 + (if leap(y) { 1int } else { 0int }),
        days_before_month(y, 11) == 304 + (if leap(y) { 1int } else { 0int }),
        days_before_month(y, 12) == 334 + (if leap(y) { 1int } else { 0int }),
{
    reveal_with_fuel(days_before_month, 13);
}

/// The year of an era of 400 years that starts on 1 March, and the day of that
/// year, for a day of the era.
proof fn lemma_year_of_era(doe: int)
    requires
        0 <= doe <= 146_096,
    ensures
        ({
            let yoe = (doe - doe / 1460 + doe / 36_524 - doe / 146_096) / 365;
            let doy = doe - (365 * yoe + yoe / 4 - yoe / 100);
            &&& 0 <= yoe <= 399
            &&& 0 <= doy <= 365
            &&& doy == 365 ==> leap(yoe + 1)
        }),
{
    let yoe = (doe - doe / 1460 + doe / 36_524 - doe / 146_096) / 365;
    let doy = doe - (365 * yoe + yoe / 4 - yoe / 100);
    assert(0 <= yoe <= 399);
    assert(0 <= doy);
    assert(doy <= 365);
    if doy == 365 {
        assert((yoe + 1) % 4 == 0);
        assert((yoe + 1) % 100 != 0 || (yoe + 1) % 400 == 0);
    }
}

/// The days of a year that starts on 1 March before its months.
pub open spec fn march_offset(mp: int) -> int {
    (153 * mp + 2) / 5
}

/// The month of a day of such a year, counted from March, and the day of it.
proof fn lemma_march_month(doy: int)
    requires
        0 <= doy <= 365,
    ensures
        ({
            let mp = (5 * doy + 2) / 153;
            let d = doy - march_offset(mp) + 1;
            &&& 0 <= mp <= 11
            &&& d >= 1
            &&& mp == 0 || mp == 2 || mp == 4 || mp == 5 || mp == 7 || mp == 9 || mp == 10 ==> d <= 31
            &&& mp == 1 || mp == 3 || mp == 6 || mp == 8 ==> d <= 30
            &&& mp == 11 ==> d <= 29
            &&& mp == 11 && d == 29 ==> doy == 365
        }),
{
}

/// The days before 1 March of a year.
proof fn lemma_first_of_march(y: int)
    ensures
        days_before_year(y) + days_before_month(y, 3) == 365 * y + y / 4 - y / 100 + y / 400 - 306,
{
    lemma_months(y);
    let p = y - 1;
    assert(y / 4 - p / 4 == if y % 4 == 0 { 1int } else { 0int });
    assert(y / 100 - p / 100 == if y % 100 == 0 { 1int } else { 0int });
    assert(y / 400 - p / 400 == if y % 400 == 0 { 1int } else { 0int });
}

proof fn lemma_era(era: int, yoe: int)
    requires
        0 <= yoe <= 399,
    ensures
        ({
            let y = yoe + era * 400;
            365 * y + y / 4 - y / 100 + y / 400 == era * 146_097 + 365 * yoe + yoe / 4 - yoe / 100
        }),
{
    let y = yoe + era * 400;
    assert(y / 4 == yoe / 4 + era * 100);
    assert(y / 100 == yoe / 100 + era * 4);
    assert(y / 400 == era);
}

/// The date of a day of a year that starts on 1 March has its number.
proof fn lemma_date(y: int, doy: int)
    requires
        0 <= doy <= 365,
        doy == 365 ==> leap(y + 1),
    ensures
        ({
            let mp = (5 * doy + 2) / 153;
            let d = doy - march_offset(mp) + 1;
            let m = if mp < 10 { mp + 3 } else { mp - 9 };
            let year = if m <= 2 { y + 1 } else { y };
            &&& is_date(year, m, d)
            &&& day_number(year, m, d) == days_before_year(y) + days_before_month(y, 3)
                - days_before_year(1970) + doy
        }),
{
    let mp = (5 * doy + 2) / 153;
    lemma_march_month(doy);
    lemma_months(y);
    lemma_months(y + 1);
    years_have_their_days(y);
    assert(march_offset(0) == 0);
    assert(march_offset(1) == 31);
    assert(march_offset(2) == 61);
    assert(march_offset(3) == 92);
    assert(march_offset(4) == 122);
    assert(march_offset(5) == 153);
    assert(march_offset(6) == 184);
    assert(march_offset(7) == 214);
    assert(march_offset(8) == 245);
    assert(march_offset(9) == 275);
    assert(march_offset(10) == 306);
    assert(march_offset(11) == 337);
    assert(mp == 0 || mp == 1 || mp == 2 || mp == 3 || mp == 4 || mp == 5 || mp == 6 || mp == 7
        || mp == 8 || mp == 9 || mp == 10 || mp == 11);
}

/// The era of 400 years that a day is in, and the day of the era. Eras start on
/// 1 March of a year that 400 divides.
fn era_of(z: i64) -> (r: (i64, i64))
    requires
        z >= i64::MIN + 719_468,
    ensures
        r.0 * 146_097 + r.1 == z,
        0 <= r.1 <= 146_096,
        -70_000_000_000_000 <= r.0 <= 70_000_000_000_000,
{
    if z >= 0 {
        let era = z / 146_097;
        (era, z % 146_097)
    } else {
        let back = (146_096 - z) / 146_097;
        let past = (146_096 - z) % 146_097;
        (-back, 146_096 - past)
    }
}

/// The year of an era that a day is in, and the day of the year.
fn year_of(doe: i64) -> (r: (i64, i64))
    requires
        0 <= doe <= 146_096,
    ensures
        0 <= r.0 <= 399,
        0 <= r.1 <= 365,
        r.1 == 365 ==> leap(r.0 + 1),
        doe == 365 * r.0 + r.0 as int / 4 - r.0 as int / 100 + r.1,
{
    let yoe = (doe - doe / 1460 + doe / 36_524 - doe / 146_096) / 365;
    proof {
        lemma_year_of_era(doe as int);
    }
    (yoe, doe - (365 * yoe + yoe / 4 - yoe / 100))
}

/// The month of a day of a year that starts on 1 March, counted from March, and
/// the day of it.
fn month_of(doy: i64) -> (r: (i64, i64))
    requires
        0 <= doy <= 365,
    ensures
        r.0 == (5 * doy + 2) / 153,
        r.1 == doy - march_offset(r.0 as int) + 1,
        0 <= r.0 <= 11,
        1 <= r.1 <= 31,
{
    proof {
        lemma_march_month(doy as int);
    }
    let mp = (5 * doy + 2) / 153;
    (mp, doy - (153 * mp + 2) / 5 + 1)
}

proof fn lemma_leap_in_era(era: int, yoe: int)
    ensures
        leap(yoe + 1) == leap(yoe + era * 400 + 1),
{
    let y = yoe + era * 400;
    assert((yoe + 1) % 4 == (y + 1) % 4);
    assert((yoe + 1) % 100 == (y + 1) % 100);
    assert((yoe + 1) % 400 == (y + 1) % 400);
}

/// The day that a number of days since 1970-01-01 is, as year, month and day.
pub fn civil_from_days(days: i64) -> (r: (i64, u32, u32))
    requires
        days <= i64::MAX - 719_468,
    ensures
        is_date(r.0 as int, r.1 as int, r.2 as int),
        day_number(r.0 as int, r.1 as int, r.2 as int) == days,
{
    let (era, doe) = era_of(days + 719_468);
    let (yoe, doy) = year_of(doe);
    let (mp, d) = month_of(doy);
    let y = yoe + era * 400;
    let m = if mp < 10 {
        mp + 3
    } else {
        mp - 9
    };
    let year = if m <= 2 {
        y + 1
    } else {
        y
    };
    proof {
        lemma_era(era as int, yoe as int);
        lemma_first_of_march(y as int);
        lemma_leap_in_era(era as int, yoe as int);
        lemma_date(y as int, doy as int);
        assert(days_before_year(1970) == 719_162);
    }
    (year, m as u32, d as u32)
}

/// A date as it is written, year, month and day.
pub open spec fn date_image(y: nat, m: nat, d: nat) -> Seq<char> {
    zero_padded(decimal_text(y), 4) + "-"@ + zero_padded(decimal_text(m), 2) + "-"@ + zero_padded(
        decimal_text(d),
        2,
    )
}

fn padded(n: u64, width: usize) -> (s: String)
    ensures
        s@ == zero_padded(decimal_text(n as nat), width as nat),
{
    let number = decimal(n as u128);
    let len = number.as_str().unicode_len();
    let mut pad = String::new();
    let mut i: usize = len;
    assert(pad@ =~= Seq::new(0, |i: int| '0'));
    while i < width
        invariant
            len <= i,
            len <= width ==> i <= width,
            len > width ==> i == len,
            pad@ == Seq::new((i - len) as nat, |i: int| '0'),
        decreases width - i,
    {
        push_char(&mut pad, '0');
        assert(pad@ =~= Seq::new((i + 1 - len) as nat, |i: int| '0'));
        i += 1;
    }
    let s = pad.concat(number.as_str());
    assert(s@ =~= zero_padded(number@, width as nat));
    s
}

/// Writes a date.
pub fn date_text(y: u64, m: u32, d: u32) -> (s: String)
    ensures
        s@ == date_image(y as nat, m as nat, d as nat),
{
    padded(y, 4).concat("-").concat(padded(m as u64, 2).as_str()).concat("-").concat(
        padded(d as u64, 2).as_str(),
    )
}

/// The date of a moment, given in seconds since 1970-01-01, at an offset from
/// UTC in seconds.
pub fn local_date(epoch: i64, offset: i64) -> (r: Option<(i64, u32, u32)>)
    ensures
        ({
            let t = epoch + offset;
            match r {
                Some((y, m, d)) => {
                    &&& i64::MIN <= t <= i64::MAX
                    &&& is_date(y as int, m as int, d as int)
                    &&& 86_400 * day_number(y as int, m as int, d as int) <= t
                    &&& t < 86_400 * day_number(y as int, m as int, d as int) + 86_400
                },
                None => !(i64::MIN <= t <= i64::MAX),
            }
        }),
{
    let t = match epoch.checked_add(offset) {
        Some(t) => t,
        None => {
            return None;
        },
    };
    let day = if t >= 0 {
        t / 86_400
    } else {
        -(-(t + 1) / 86_400) - 1
    };
    Some(civil_from_days(day))
}

} // verus!
