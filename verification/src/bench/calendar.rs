//! Dates and timestamps: when did this run happen.
use vstd::prelude::*;
use vstd::string::StringExecFns;

use crate::engine::log::clock;
use crate::text::{decimal, fixed, push_decimal, push_fixed};

verus! {

/// A year of 366 days.
pub open spec fn leap(y: int) -> bool {
    y % 4 == 0 && (y % 100 != 0 || y % 400 == 0)
}

pub open spec fn year_len(y: int) -> int {
    if leap(y) {
        366
    } else {
        365
    }
}

/// The days of a month, which is 1 for January.
pub open spec fn month_len(y: int, m: int) -> int {
    if m == 2 {
        if leap(y) {
            29
        } else {
            28
        }
    } else if m == 4 || m == 6 || m == 9 || m == 11 {
        30
    } else {
        31
    }
}

pub open spec fn is_date(y: int, m: int, d: int) -> bool {
    1 <= m <= 12 && 1 <= d <= month_len(y, m)
}

/// How many leap years there are from year 1 up to `y`; less than none before year 1.
pub open spec fn leaps(y: int) -> int {
    y / 4 - y / 100 + y / 400
}

/// The days from 1970-01-01 to the first day of a year.
pub open spec fn days_before_year(y: int) -> int {
    365 * (y - 1970) + leaps(y - 1) - leaps(1969)
}

/// The days of a year before a month.
pub open spec fn days_before_month(y: int, m: int) -> int
    decreases m,
{
    if m <= 1 {
        0
    } else {
        days_before_month(y, m - 1) + month_len(y, m - 1)
    }
}

/// The days from 1970-01-01 to a date.
pub open spec fn day_number(y: int, m: int, d: int) -> int {
    days_before_year(y) + days_before_month(y, m) + d - 1
}

/// The years follow each other: the next one begins when all days of a year are over.
pub proof fn lemma_years_follow(y: int)
    ensures
        days_before_year(1970) == 0,
        days_before_year(y + 1) == days_before_year(y) + year_len(y),
{
    lemma_leaps_step(y);
}

proof fn lemma_leaps_step(y: int)
    ensures
        leaps(y) == leaps(y - 1) + (if leap(y) {
            1int
        } else {
            0int
        }),
{
    let q = y / 400;
    let r = y % 400;
    assert(y == 400 * q + r && 0 <= r < 400);
    assert(y / 4 == 100 * q + r / 4 && y % 4 == r % 4);
    assert(y / 100 == 4 * q + r / 100 && y % 100 == r % 100);
    assert((y - 1) / 4 == 100 * q + (r - 1) / 4);
    assert((y - 1) / 100 == 4 * q + (r - 1) / 100);
    assert((y - 1) / 400 == q + (r - 1) / 400);
    assert(r / 4 - (r - 1) / 4 == if r % 4 == 0 { 1int } else { 0 });
    assert(r / 100 - (r - 1) / 100 == if r % 100 == 0 { 1int } else { 0 });
    assert(r / 400 - (r - 1) / 400 == if r == 0 { 1int } else { 0 });
    assert(r % 100 == 0 ==> r % 4 == 0);
}

proof fn lemma_months(y: int)
    ensures
        days_before_month(y, 1) == 0,
        days_before_month(y, 2) == 31,
        forall|m: int|
            3 <= m <= 12 ==> #[trigger] days_before_month(y, m) == (year_len(y) - 306) + (153 * (m - 3)
                + 2) / 5,
{
    reveal_with_fuel(days_before_month, 13);
    assert(days_before_month(y, 13) >= 0);
}

/// The parts of a 400-year era: which of its years, counted from March, a day is in, and which day
/// of that year it is.
proof fn lemma_era(doe: u32, yoe: u32, doy: int)
    requires
        doe < 146_097,
        yoe == (doe - doe / 1460 + doe / 36_524 - doe / 146_096) / 365,
        doy == doe - (365 * yoe + yoe / 4 - yoe / 100),
    ensures
        yoe < 400,
        0 <= doy <= 365,
        doy == 365 ==> leap(yoe + 1),
{
    assert(({
        let y = ((doe - doe / 1460 + doe / 36_524 - doe / 146_096) / 365) as u32;
        let start = (365 * y + y / 4 - y / 100) as u32;
        &&& y < 400
        &&& start <= doe
        &&& doe - start <= 365
        &&& doe - start == 365 ==> (y + 1) % 4 == 0 && ((y + 1) % 100 != 0 || (y + 1) % 400 == 0)
    })) by (bit_vector)
        requires
            doe < 146_097,
    ;
}

/// A number as an `i32` holds it, with what does not fit wrapped around.
pub open spec fn wrapped_i32(n: int) -> int {
    (n + 0x8000_0000) % 0x1_0000_0000 - 0x8000_0000
}

/// The month and the day of the month of a day of a year that is counted from March.
proof fn lemma_month_of(doy: int, mp: int)
    requires
        0 <= doy <= 365,
        mp == (5 * doy + 2) / 153,
    ensures
        0 <= mp < 12,
        1 <= doy - (153 * mp + 2) / 5 + 1 <= 31,
        mp == 1 || mp == 3 || mp == 6 || mp == 8 ==> doy - (153 * mp + 2) / 5 + 1 <= 30,
        mp == 11 ==> doy - (153 * mp + 2) / 5 + 1 == doy - 336,
        mp == 10 ==> doy - (153 * mp + 2) / 5 + 1 == doy - 305,
{
}

/// The leap years of an era follow one pattern.
proof fn lemma_era_leaps(era: int, yoe: int)
    requires
        0 <= yoe < 400,
    ensures
        leaps(yoe + era * 400) == 97 * era + yoe / 4 - yoe / 100,
{
    let march = yoe + era * 400;
    assert(march / 4 == 100 * era + yoe / 4);
    assert(march / 100 == 4 * era + yoe / 100);
    assert(march / 400 == era);
}

proof fn lemma_era_leap(era: int, n: int)
    ensures
        leap(n + era * 400) == leap(n),
{
    vstd::arithmetic::div_mod::lemma_mod_multiples_vanish(100 * era, n, 4);
    vstd::arithmetic::div_mod::lemma_mod_multiples_vanish(4 * era, n, 100);
    vstd::arithmetic::div_mod::lemma_mod_multiples_vanish(era, n, 400);
    assert(4 * (100 * era) + n == n + era * 400);
    assert(100 * (4 * era) + n == n + era * 400);
    assert(400 * era + n == n + era * 400);
}

/// The first day of March of year `yoe` of an era, and of the January after it.
proof fn lemma_first_of_march(era: int, yoe: int, march: int, lead: int)
    requires
        0 <= yoe < 400,
        march == yoe + era * 400,
        lead == yoe / 4 - yoe / 100,
    ensures
        days_before_year(march) + year_len(march) - 306 == era * 146_097 + 365 * yoe + lead - 719_468,
        days_before_year(march + 1) == era * 146_097 + 365 * yoe + lead - 719_468 + 306,
{
    lemma_era_leaps(era, yoe);
    lemma_years_follow(march);
    assert(leaps(1969) == 477);
    assert(leaps(march + 1 - 1) == 97 * era + lead);
}

/// The date of a day of a 400-year era, by its year and its day, both counted from March.
proof fn lemma_march(era: int, yoe: int, doy: int, mp: int)
    requires
        0 <= yoe < 400,
        0 <= doy <= 365,
        doy == 365 ==> leap(yoe + 1),
        mp == (5 * doy + 2) / 153,
    ensures
        ({
            let m = if mp < 10 {
                mp + 3
            } else {
                mp - 9
            };
            let d = doy - (153 * mp + 2) / 5 + 1;
            let march = yoe + era * 400;
            let y = if m <= 2 {
                march + 1
            } else {
                march
            };
            &&& 0 <= mp < 12
            &&& is_date(y, m, d)
            &&& day_number(y, m, d) == era * 146_097 + 365 * yoe + yoe / 4 - yoe / 100 + doy - 719_468
        }),
{
    let march = yoe + era * 400;
    let d = doy - (153 * mp + 2) / 5 + 1;
    lemma_month_of(doy, mp);
    lemma_first_of_march(era, yoe, march, yoe / 4 - yoe / 100);
    lemma_era_leap(era, yoe + 1);
    assert(yoe + 1 + era * 400 == march + 1);
    if mp < 10 {
        lemma_months(march);
        assert(is_date(march, mp + 3, d));
        assert(days_before_month(march, mp + 3) == (year_len(march) - 306) + (153 * mp + 2) / 5);
    } else {
        lemma_months(march + 1);
        assert(is_date(march + 1, mp - 9, d));
    }
}

/// The day that is `z` days after 1970-01-01 is the given one, in year `y`, which is wrapped around.
pub open spec fn falls_on(z: int, y: int, date: (i32, u32, u32)) -> bool {
    &&& is_date(y, date.1 as int, date.2 as int)
    &&& day_number(y, date.1 as int, date.2 as int) == z
    &&& date.0 == wrapped_i32(y)
}

/// The year, month and day of the day that is `z` days after 1970-01-01. A year that an `i32` cannot
/// hold is wrapped around.
pub fn civil_from_days(z: i64) -> (r: (i32, u32, u32))
    requires
        z <= i64::MAX - 719_468,
    ensures
        exists|y: int| #[trigger] falls_on(z as int, y, r),
{
    let shifted: i64 = z + 719_468;
    let era: i64 = if shifted >= 0 {
        shifted / 146_097
    } else {
        -((-shifted + 146_096) / 146_097)
    };
    assert(0 <= shifted - era * 146_097 < 146_097);
    let doe: u32 = (shifted - era * 146_097) as u32;
    let yoe: u32 = (doe - doe / 1460 + doe / 36_524 - doe / 146_096) / 365;
    proof {
        lemma_era(doe, yoe, doe - (365 * yoe + yoe / 4 - yoe / 100));
    }
    let doy: u32 = doe - (365 * yoe + yoe / 4 - yoe / 100);
    let mp: u32 = (5 * doy + 2) / 153;
    proof {
        lemma_march(era as int, yoe as int, doy as int, mp as int);
        lemma_month_of(doy as int, mp as int);
    }
    let d: u32 = doy - (153 * mp + 2) / 5 + 1;
    let m: u32 = if mp < 10 {
        mp + 3
    } else {
        mp - 9
    };
    let march: i64 = yoe as i64 + era * 400;
    let y: i64 = if m <= 2 {
        march + 1
    } else {
        march
    };
    let r = (wrap_i32(y), m, d);
    assert(is_date(y as int, m as int, d as int));
    assert(day_number(y as int, m as int, d as int) == z);
    assert(falls_on(z as int, y as int, r));
    r
}

/// `n` as an `i32`, with what does not fit wrapped around.
fn wrap_i32(n: i64) -> (r: i32)
    requires
        -0x2000_0000_0000_0000 <= n <= 0x2000_0000_0000_0000,
    ensures
        r == wrapped_i32(n as int),
{
    let shifted: i64 = n + 0x8000_0000 + 0x2000_0000_0000_0000;
    assert(shifted % 0x1_0000_0000 == (n + 0x8000_0000) % 0x1_0000_0000);
    (shifted % 0x1_0000_0000 - 0x8000_0000) as i32
}

/// No two dates have the same number: later dates have higher ones.
pub proof fn lemma_dates_ordered(y: int, m: int, d: int, y2: int, m2: int, d2: int)
    requires
        is_date(y, m, d),
        is_date(y2, m2, d2),
        y < y2 || y == y2 && (m < m2 || m == m2 && d < d2),
    ensures
        day_number(y, m, d) < day_number(y2, m2, d2),
{
    if y < y2 {
        lemma_years_ordered(y, y2);
        lemma_months(y);
        lemma_months_ordered(y, m, 12);
        lemma_months_ordered(y2, 1, m2);
        assert(days_before_month(y, m) + d <= year_len(y));
    } else if m < m2 {
        lemma_months_ordered(y, m, m2);
    }
}

proof fn lemma_years_ordered(y: int, y2: int)
    requires
        y < y2,
    ensures
        days_before_year(y) + year_len(y) <= days_before_year(y2),
    decreases y2 - y,
{
    lemma_years_follow(y2 - 1);
    if y < y2 - 1 {
        lemma_years_ordered(y, y2 - 1);
    }
}

proof fn lemma_months_ordered(y: int, m: int, m2: int)
    requires
        1 <= m <= m2,
    ensures
        m < m2 ==> days_before_month(y, m) + month_len(y, m) <= days_before_month(y, m2),
        m == m2 ==> days_before_month(y, m) == days_before_month(y, m2),
        days_before_month(y, m2) >= 0,
    decreases m2, m,
{
    if m < m2 {
        lemma_months_ordered(y, m, m2 - 1);
    } else if m > 1 {
        lemma_months_ordered(y, 1, m);
    }
}

/// A year as text: with at least four characters, zeros in front of its digits where there are
/// fewer.
pub open spec fn year_text(y: int) -> Seq<char> {
    if y >= 10_000 {
        decimal(y as nat)
    } else if y >= 0 {
        fixed(y as nat, 10, 4)
    } else if y > -1000 {
        "-"@ + fixed((-y) as nat, 10, 3)
    } else {
        "-"@ + decimal((-y) as nat)
    }
}

/// The time of a day as text.
pub open spec fn time_text(sec_of_day: int) -> Seq<char> {
    fixed((sec_of_day / 3600) as nat, 10, 2) + ":"@ + fixed(((sec_of_day / 60) % 60) as nat, 10, 2)
        + ":"@ + fixed((sec_of_day % 60) as nat, 10, 2)
}

/// A date and the time of a day as text, in UTC.
pub open spec fn stamp_text(date: (i32, u32, u32), sec_of_day: int) -> Seq<char> {
    year_text(date.0 as int) + "-"@ + fixed(date.1 as nat, 10, 2) + "-"@ + fixed(
        date.2 as nat,
        10,
        2,
    ) + "T"@ + time_text(sec_of_day) + "Z"@
}

/// The text is the timestamp for a number of seconds since the Unix epoch, whose date is the given
/// one.
pub open spec fn is_stamp(secs: u64, y: int, date: (i32, u32, u32), text: Seq<char>) -> bool {
    falls_on(secs as int / 86_400, y, date) && text == stamp_text(date, secs as int % 86_400)
}

fn push_year(s: &mut String, y: i32)
    ensures
        final(s)@ == old(s)@ + year_text(y as int),
{
    let ghost was = s@;
    if y >= 0 {
        if y >= 10_000 {
            push_decimal(s, y as u64);
        } else {
            push_fixed(s, y as u64, 10, 4);
        }
    } else {
        s.append("-");
        let n: u64 = (-(y as i64)) as u64;
        if n < 1000 {
            push_fixed(s, n, 10, 3);
        } else {
            push_decimal(s, n);
        }
        assert(s@ =~= was + year_text(y as int));
    }
}

/// The timestamp for a number of seconds since the Unix epoch: RFC3339 UTC, second precision, leap
/// seconds ignored.
pub fn timestamp_text(secs: u64) -> (r: String)
    ensures
        exists|y: int, date: (i32, u32, u32)| #[trigger] is_stamp(secs, y, date, r@),
{
    let days: u64 = secs / 86_400;
    let sec_of_day: u64 = secs % 86_400;
    let date = civil_from_days(days as i64);
    let ghost y = choose|y: int| #[trigger] falls_on(days as int, y, date);
    let mut s = String::new();
    push_year(&mut s, date.0);
    s.append("-");
    push_fixed(&mut s, date.1 as u64, 10, 2);
    s.append("-");
    push_fixed(&mut s, date.2 as u64, 10, 2);
    s.append("T");
    push_fixed(&mut s, sec_of_day / 3600, 10, 2);
    s.append(":");
    push_fixed(&mut s, (sec_of_day / 60) % 60, 10, 2);
    s.append(":");
    push_fixed(&mut s, sec_of_day % 60, 10, 2);
    s.append("Z");
    assert(s@ =~= stamp_text(date, sec_of_day as int));
    assert(is_stamp(secs, y, date, s@));
    s
}

/// The timestamp of the current time; that of the Unix epoch where the clock stands before it.
pub fn current_timestamp() -> (r: String)
    ensures
        exists|secs: u64, y: int, date: (i32, u32, u32)| #[trigger]
            is_stamp(secs, y, date, r@) && (clock::shows_secs(Some(secs)) || secs == 0
                && clock::shows_secs(None)),
{
    timestamp_text(clock::now_secs())
}

} // verus!
