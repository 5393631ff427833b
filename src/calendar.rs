use vstd::prelude::*;

use chrono::Datelike;

use crate::error::WakalyzeError;

verus! {

/// The earliest year that chrono's `NaiveDate` holds.
pub const MIN_YEAR: i32 = -262143;

/// The latest year that chrono's `NaiveDate` holds.
pub const MAX_YEAR: i32 = 262142;

/// A day of the proleptic Gregorian calendar.
#[derive(Clone, Copy, Debug, PartialEq, Eq, Structural)]
pub struct Date {
    pub year: i32,
    pub month: u32,
    pub day: u32,
}

/// A Gregorian leap year: divisible by 4, and by 400 when it is divisible by 100.
pub open spec fn is_leap_year(y: int) -> bool {
    (y % 4 == 0 && y % 100 != 0) || y % 400 == 0
}

/// The number of days of month `m` in year `y`.
pub open spec fn days_in_month(y: int, m: int) -> int {
    if m == 2 {
        if is_leap_year(y) { 29 } else { 28 }
    } else if m == 4 || m == 6 || m == 9 || m == 11 {
        30
    } else {
        31
    }
}

/// An existing day, in the years that chrono can hold.
pub open spec fn is_valid_ymd(y: int, m: int, d: int) -> bool {
    &&& MIN_YEAR <= y <= MAX_YEAR
    &&& 1 <= m <= 12
    &&& 1 <= d <= days_in_month(y, m)
}

/// Days in the years before year `y`, counted from year 1 (negative before it).
#[verifier::opaque]
pub open spec fn days_before_year(y: int) -> int {
    365 * (y - 1) + (y - 1) / 4 - (y - 1) / 100 + (y - 1) / 400
}

/// Days in the months of year `y` before month `m`.
pub open spec fn days_before_month(y: int, m: int) -> int {
    let base: int = if m <= 1 {
        0
    } else if m == 2 {
        31
    } else if m == 3 {
        59
    } else if m == 4 {
        90
    } else if m == 5 {
        120
    } else if m == 6 {
        151
    } else if m == 7 {
        181
    } else if m == 8 {
        212
    } else if m == 9 {
        243
    } else if m == 10 {
        273
    } else if m == 11 {
        304
    } else {
        334
    };
    if m > 2 && is_leap_year(y) { base + 1 } else { base }
}

/// The number of a day, January 1 of year 1 being day 1.
#[verifier::opaque]
pub open spec fn day_number(y: int, m: int, d: int) -> int {
    days_before_year(y) + days_before_month(y, m) + d
}

/// The number of the earliest day that chrono holds.
pub open spec fn first_day_number() -> int {
    day_number(MIN_YEAR as int, 1, 1)
}

/// The number of the latest day that chrono holds.
pub open spec fn last_day_number() -> int {
    day_number(MAX_YEAR as int, 12, 31)
}

impl Date {
    pub open spec fn wf(self) -> bool {
        is_valid_ymd(self.year as int, self.month as int, self.day as int)
    }

    /// This day's number, January 1 of year 1 being day 1.
    pub open spec fn number(self) -> int {
        day_number(self.year as int, self.month as int, self.day as int)
    }

    /// The last day of this day's month.
    pub open spec fn month_end(self) -> Date {
        Date { day: days_in_month(self.year as int, self.month as int) as u32, ..self }
    }
}

/// The calendar day before `d`; none before the earliest day that chrono holds.
pub open spec fn day_before(d: Date) -> Option<Date> {
    if d.day > 1 {
        Some(Date { day: (d.day - 1) as u32, ..d })
    } else if d.month > 1 {
        let m = (d.month - 1) as u32;
        Some(Date { year: d.year, month: m, day: days_in_month(d.year as int, m as int) as u32 })
    } else if d.year > MIN_YEAR {
        Some(Date { year: (d.year - 1) as i32, month: 12, day: 31 })
    } else {
        None
    }
}

/// Relies on chrono's `NaiveDate::from_ymd_opt`: a date exactly when the day exists and its
/// year is in chrono's range.
#[verifier::external_body]
fn date_from_ymd(year: i32, month: u32, day: u32) -> (r: Option<Date>)
    ensures
        r == (if is_valid_ymd(year as int, month as int, day as int) {
            Some(Date { year, month, day })
        } else {
            None
        }),
{
    match chrono::NaiveDate::from_ymd_opt(year, month, day) {
        Some(d) => Some(Date { year: d.year(), month: d.month(), day: d.day() }),
        None => None,
    }
}

/// Relies on chrono's `Datelike::num_days_from_ce`: the day's number, January 1 of year 1
/// being day 1.
#[verifier::external_body]
fn num_days_from_ce(d: Date) -> (r: i32)
    requires
        d.wf(),
    ensures
        r == d.number(),
{
    chrono::NaiveDate::from_ymd_opt(d.year, d.month, d.day).unwrap().num_days_from_ce()
}

/// Relies on chrono's `NaiveDate::from_num_days_from_ce_opt`: the day with the given number,
/// none outside chrono's range.
#[verifier::external_body]
fn date_from_num_days(n: i32) -> (r: Option<Date>)
    ensures
        r is Some <==> first_day_number() <= n <= last_day_number(),
        r matches Some(d) ==> d.wf() && d.number() == n,
{
    match chrono::NaiveDate::from_num_days_from_ce_opt(n) {
        Some(d) => Some(Date { year: d.year(), month: d.month(), day: d.day() }),
        None => None,
    }
}

/// Relies on chrono's `NaiveDate::pred_opt`: the calendar day before.
#[verifier::external_body]
fn previous_day(d: Date) -> (r: Option<Date>)
    requires
        d.wf(),
    ensures
        r == day_before(d),
{
    match chrono::NaiveDate::from_ymd_opt(d.year, d.month, d.day).unwrap().pred_opt() {
        Some(p) => Some(Date { year: p.year(), month: p.month(), day: p.day() }),
        None => None,
    }
}

/// Relies on chrono's `Datelike::weekday` with `Weekday::num_days_from_sunday`: 0 for a
/// Sunday up to 6 for a Saturday. Day 1 was a Monday.
#[verifier::external_body]
fn days_since_sunday(d: Date) -> (r: u32)
    requires
        d.wf(),
    ensures
        r == d.number() % 7,
{
    chrono::NaiveDate::from_ymd_opt(d.year, d.month, d.day).unwrap().weekday().num_days_from_sunday()
}

/// A year adds 365 days, and one more when it is a leap year.
pub proof fn lemma_year_length(y: int)
    ensures
        days_before_year(y + 1) == days_before_year(y) + 365 + (if is_leap_year(y) { 1int } else { 0 }),
{
    reveal(days_before_year);
    let p = y - 1;
    assert(y / 4 - p / 4 == (if y % 4 == 0 { 1int } else { 0 }));
    assert(y / 100 - p / 100 == (if y % 100 == 0 { 1int } else { 0 }));
    assert(y / 400 - p / 400 == (if y % 400 == 0 { 1int } else { 0 }));
}

/// Later years start later: at least 365 days for each year between.
pub proof fn lemma_years_increase(a: int, b: int)
    requires
        a <= b,
    ensures
        days_before_year(a) + 365 * (b - a) <= days_before_year(b),
    decreases b - a,
{
    if a < b {
        lemma_years_increase(a, b - 1);
        lemma_year_length(b - 1);
    }
}

/// The numbers of the earliest and the latest day that chrono holds.
pub proof fn lemma_day_number_range()
    ensures
        first_day_number() == -95746129,
        last_day_number() == 95745399,
{
    reveal(day_number);
    reveal(days_before_year);
}

/// A valid day's number lies within its year, and within chrono's range.
pub proof fn lemma_number_bounds(d: Date)
    requires
        d.wf(),
    ensures
        days_before_year(d.year as int) < d.number() <= days_before_year(d.year + 1),
        first_day_number() <= d.number() <= last_day_number(),
        first_day_number() == days_before_year(MIN_YEAR as int) + 1,
        last_day_number() == days_before_year(MAX_YEAR as int + 1),
{
    reveal(day_number);
    let y = d.year as int;
    lemma_year_length(y);
    lemma_year_length(MAX_YEAR as int);
    lemma_years_increase(MIN_YEAR as int, y);
    lemma_years_increase(y + 1, MAX_YEAR as int + 1);
}


pub open spec fn is_digit(c: char) -> bool {
    '0' <= c <= '9'
}

pub open spec fn digit_value(c: char) -> int {
    c as int - '0' as int
}

/// The year written by the first four characters of `s`.
pub open spec fn text_year(s: Seq<char>) -> int {
    1000 * digit_value(s[0]) + 100 * digit_value(s[1]) + 10 * digit_value(s[2]) + digit_value(
        s[3],
    )
}

/// The month written by the last two characters of a `YYYY/MM` text.
pub open spec fn text_month(s: Seq<char>) -> int {
    10 * digit_value(s[5]) + digit_value(s[6])
}

/// `s` is `YYYY/MM`: four digits, a slash, two digits, and a month from 1 to 12.
pub open spec fn is_month_text(s: Seq<char>) -> bool {
    &&& s.len() == 7
    &&& is_digit(s[0]) && is_digit(s[1]) && is_digit(s[2]) && is_digit(s[3])
    &&& s[4] == '/'
    &&& is_digit(s[5]) && is_digit(s[6])
    &&& 1 <= text_month(s) <= 12
}

/// What `parse_month` gives for the text `s`.
pub open spec fn parsed_month(s: Seq<char>) -> Result<Date, WakalyzeError> {
    if is_month_text(s) {
        Ok(Date { year: text_year(s) as i32, month: text_month(s) as u32, day: 1 })
    } else {
        Err(WakalyzeError::InvalidMonth)
    }
}

fn digit_at(s: &str, i: usize) -> (r: Option<u32>)
    requires
        i < s@.len(),
    ensures
        r == (if is_digit(s@[i as int]) {
            Some(digit_value(s@[i as int]) as u32)
        } else {
            None
        }),
{
    let c = s.get_char(i);
    if '0' <= c && c <= '9' {
        Some((c as u32) - ('0' as u32))
    } else {
        None
    }
}

/// Reads a month written `YYYY/MM` and gives its first day.
pub fn parse_month(value: &str) -> (r: Result<Date, WakalyzeError>)
    ensures
        r == parsed_month(value@),
{
    if value.unicode_len() != 7 || value.get_char(4) != '/' {
        return Err(WakalyzeError::InvalidMonth);
    }
    let mut year: u32 = 0;
    let mut i: usize = 0;
    while i < 4
        invariant
            value@.len() == 7,
            i <= 4,
            forall|k: int| 0 <= k < i ==> is_digit(#[trigger] value@[k]),
            year == (if i == 0 {
                0
            } else if i == 1 {
                digit_value(value@[0])
            } else if i == 2 {
                10 * digit_value(value@[0]) + digit_value(value@[1])
            } else if i == 3 {
                100 * digit_value(value@[0]) + 10 * digit_value(value@[1]) + digit_value(
                    value@[2],
                )
            } else {
                text_year(value@)
            }),
        decreases 4 - i,
    {
        match digit_at(value, i) {
            Some(v) => {
                year = year * 10 + v;
            },
            None => {
                return Err(WakalyzeError::InvalidMonth);
            },
        }
        i = i + 1;
    }
    let tens = digit_at(value, 5);
    let ones = digit_at(value, 6);
    match (tens, ones) {
        (Some(t), Some(o)) => {
            let month = t * 10 + o;
            match date_from_ymd(year as i32, month, 1) {
                Some(d) => Ok(d),
                None => Err(WakalyzeError::InvalidMonth),
            }
        },
        _ => Err(WakalyzeError::InvalidMonth),
    }
}

/// The last day of the month of `first_day`: the day before the first of the next month.
pub fn month_last_day(first_day: Date) -> (r: Date)
    requires
        first_day.wf(),
        first_day.year < MAX_YEAR || first_day.month < 12,
    ensures
        r == first_day.month_end(),
{
    let (year, month) = if first_day.month == 12 {
        (first_day.year + 1, 1u32)
    } else {
        (first_day.year, first_day.month + 1)
    };
    let next = date_from_ymd(year, month, 1).unwrap();
    previous_day(next).unwrap()
}

/// Every day from `start` to `end`, both included, in order; none when `start` is later.
pub fn iter_dates(start: Date, end: Date) -> (r: Vec<Date>)
    requires
        start.wf(),
        end.wf(),
    ensures
        r.len() == (if start.number() <= end.number() {
            end.number() - start.number() + 1
        } else {
            0
        }),
        forall|i: int| 0 <= i < r.len() ==> r[i].wf() && #[trigger] r[i].number() == start.number() + i,
        forall|i: int| 0 < i < r.len() ==> #[trigger] r[i].number() == r[i - 1].number() + 1,
{
    let s = num_days_from_ce(start);
    let e = num_days_from_ce(end);
    let mut out: Vec<Date> = Vec::new();
    if s > e {
        return out;
    }
    proof {
        lemma_number_bounds(start);
        lemma_number_bounds(end);
        lemma_day_number_range();
    }
    let mut n: i32 = s;
    while n <= e
        invariant
            s <= n <= e + 1,
            s == start.number(),
            e == end.number(),
            first_day_number() <= s,
            e <= last_day_number() == 95745399,
            out.len() == n - s,
            forall|i: int| 0 <= i < out.len() ==> #[trigger] out[i].wf(),
            forall|i: int| 0 <= i < out.len() ==> #[trigger] out[i].number() == s + i,
        decreases e + 1 - n,
    {
        let d = date_from_num_days(n).unwrap();
        let ghost before = out@;
        out.push(d);
        assert(forall|i: int| 0 <= i < before.len() ==> out@[i] == before[i]);
        n = n + 1;
    }
    out
}

/// The number of the first day of week `week` of the month of `first_day`: weeks start on
/// Sunday, and week 1 is the one that holds `first_day`.
pub open spec fn week_start_number(first_day: Date, week: int) -> int {
    first_day.number() - first_day.number() % 7 + 7 * (week - 1)
}

/// The first and last day of week `week` (1 to 6) of the month of `first_day`. Weeks run
/// from Sunday to Saturday, week 1 holds `first_day`, and neither end is clipped to the
/// month.
pub fn week_range(first_day: Date, week: u32) -> (r: Result<(Date, Date), WakalyzeError>)
    requires
        first_day.wf(),
        MIN_YEAR < first_day.year < MAX_YEAR,
    ensures
        !(1 <= week <= 6) ==> r == Err::<(Date, Date), WakalyzeError>(WakalyzeError::InvalidWeek),
        1 <= week <= 6 && week_start_number(first_day, week as int)
            > first_day.month_end().number() ==> r == Err::<(Date, Date), WakalyzeError>(
            WakalyzeError::WeekOutOfRange(week),
        ),
        1 <= week <= 6 && week_start_number(first_day, week as int)
            <= first_day.month_end().number() ==> match r {
            Ok((s, e)) => {
                &&& s.wf()
                &&& e.wf()
                &&& s.number() == week_start_number(first_day, week as int)
                &&& e.number() == s.number() + 6
            },
            Err(_) => false,
        },
{
    if week < 1 || week > 6 {
        return Err(WakalyzeError::InvalidWeek);
    }
    let dow = days_since_sunday(first_day);
    let first_n = num_days_from_ce(first_day);
    proof {
        lemma_day_number_range();
        lemma_number_bounds(first_day);
        lemma_years_increase(MIN_YEAR as int, first_day.year as int);
        lemma_years_increase(first_day.year + 1, MAX_YEAR as int);
        lemma_years_increase(MAX_YEAR as int, MAX_YEAR as int + 1);
    }
    let start_n: i32 = first_n - dow as i32 + ((week - 1) * 7) as i32;
    let end_n: i32 = start_n + 6;
    let last = month_last_day(first_day);
    let last_n = num_days_from_ce(last);
    if start_n > last_n {
        return Err(WakalyzeError::WeekOutOfRange(week));
    }
    let start = date_from_num_days(start_n).unwrap();
    let end = date_from_num_days(end_n).unwrap();
    Ok((start, end))
}


/// Week 1 starts on a Sunday, the one on or before the first of the month: the first itself
/// when that is a Sunday, the day before it when the first is a Monday. It never starts
/// after the month ends.
pub proof fn lemma_week_one(first_day: Date)
    requires
        first_day.wf(),
    ensures
        first_day.number() - 6 <= week_start_number(first_day, 1) <= first_day.number(),
        week_start_number(first_day, 1) % 7 == 0,
        first_day.number() % 7 == 0 ==> week_start_number(first_day, 1) == first_day.number(),
        first_day.number() % 7 == 1 ==> week_start_number(first_day, 1) == first_day.number() - 1,
        week_start_number(first_day, 1) <= first_day.month_end().number(),
{
    reveal(day_number);
}

/// The character of a decimal digit.
pub open spec fn digit_char(v: int) -> char {
    ('0' as int + v) as char
}

/// The text `YYYY/MM` of a year from 0 to 9999 and a month, both zero-padded.
pub open spec fn month_text(y: int, m: int) -> Seq<char> {
    seq![
        digit_char(y / 1000),
        digit_char((y / 100) % 10),
        digit_char((y / 10) % 10),
        digit_char(y % 10),
        '/',
        digit_char(m / 10),
        digit_char(m % 10),
    ]
}

/// Reading the text of a month gives back the first day of that month.
pub proof fn lemma_month_text_round_trip(y: int, m: int)
    requires
        0 <= y <= 9999,
        1 <= m <= 12,
    ensures
        parsed_month(month_text(y, m)) == Ok::<Date, WakalyzeError>(
            Date { year: y as i32, month: m as u32, day: 1 },
        ),
{
    let s = month_text(y, m);
    assert(digit_value(s[0]) == y / 1000);
    assert(digit_value(s[1]) == (y / 100) % 10);
    assert(digit_value(s[2]) == (y / 10) % 10);
    assert(digit_value(s[3]) == y % 10);
    assert(digit_value(s[5]) == m / 10);
    assert(digit_value(s[6]) == m % 10);
    assert(text_year(s) == y);
    assert(text_month(s) == m);
}

} // verus!
