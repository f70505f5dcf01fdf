//! Calendar dates without a time of day, as the schedule stores them.

use chrono::Datelike;
use vstd::prelude::*;

verus! {

/// The largest year a `Date` can hold; the persisted form writes four digits.
pub const MAX_YEAR: u32 = 9999;

/// A date of the proleptic Gregorian calendar.
#[derive(Clone, Copy, Debug, PartialEq, Eq, Structural)]
pub struct Date {
    pub year: u32,
    pub month: u32,
    pub day: u32,
}

pub open spec fn is_leap_year(y: int) -> bool {
    y % 4 == 0 && (y % 100 != 0 || y % 400 == 0)
}

pub open spec fn days_in_month(y: int, m: int) -> int {
    if m == 2 {
        if is_leap_year(y) {
            29
        } else {
            28
        }
    } else if m == 4 || m == 6 || m == 9 || m == 11 {
        30
    } else {
        31
    }
}

/// `(y, m, d)` names a day that exists, in a year of at most four digits.
pub open spec fn is_calendar_date(y: int, m: int, d: int) -> bool {
    &&& 0 <= y <= MAX_YEAR
    &&& 1 <= m <= 12
    &&& 1 <= d <= days_in_month(y, m)
}

pub open spec fn year_len(y: int) -> int {
    if is_leap_year(y) {
        366
    } else {
        365
    }
}

/// The days of the years before `y`, counted from year 0.
pub open spec fn days_before_year(y: int) -> int
    decreases y,
{
    if y <= 0 {
        0
    } else {
        days_before_year(y - 1) + year_len(y - 1)
    }
}

/// The days of the months of year `y` before month `m`.
pub open spec fn days_before_month(y: int, m: int) -> int
    decreases m,
{
    if m <= 1 {
        0
    } else {
        days_before_month(y, m - 1) + days_in_month(y, m - 1)
    }
}

/// The number of the day `(y, m, d)` of the proleptic Gregorian calendar,
/// counted from 0000-01-01, which is day 0.
pub open spec fn day_number(y: int, m: int, d: int) -> int {
    days_before_year(y) + days_before_month(y, m) + d - 1
}

pub open spec fn date_number(d: Date) -> int {
    day_number(d.year as int, d.month as int, d.day as int)
}

/// The number of the last day that `Date` holds, 9999-12-31.
pub open spec fn last_day_number() -> int {
    day_number(MAX_YEAR as int, 12, 31)
}

/// `(y1, m1, d1)` comes before `(y2, m2, d2)`.
pub open spec fn ymd_before(y1: int, m1: int, d1: int, y2: int, m2: int, d2: int) -> bool {
    y1 < y2 || (y1 == y2 && (m1 < m2 || (m1 == m2 && d1 < d2)))
}

proof fn lemma_months_fill_year(y: int, m: int)
    requires
        1 <= m <= 13,
    ensures
        days_before_month(y, m) <= days_before_month(y, 13),
        days_before_month(y, 13) == year_len(y),
        m <= 12 ==> days_before_month(y, m) + days_in_month(y, m) == days_before_month(y, m + 1),
    decreases 13 - m,
{
    reveal_with_fuel(days_before_month, 13);
    if m < 13 {
        lemma_months_fill_year(y, m + 1);
    }
}

proof fn lemma_months_grow(y: int, m1: int, m2: int)
    requires
        1 <= m1 <= m2 <= 13,
    ensures
        days_before_month(y, m1) + (if m1 < m2 { days_in_month(y, m1) } else { 0 }) <= days_before_month(y, m2),
    decreases m2 - m1,
{
    if m1 < m2 {
        lemma_months_grow(y, m1, m2 - 1);
        lemma_months_fill_year(y, m2 - 1);
        if m1 < m2 - 1 {
            lemma_months_fill_year(y, m1);
        }
    }
}

proof fn lemma_years_grow(y1: int, y2: int)
    requires
        0 <= y1 < y2,
    ensures
        days_before_year(y1) + year_len(y1) <= days_before_year(y2),
    decreases y2,
{
    if y1 < y2 - 1 {
        lemma_years_grow(y1, y2 - 1);
    }
}

/// Later days have larger numbers.
pub proof fn lemma_day_number_order(y1: int, m1: int, d1: int, y2: int, m2: int, d2: int)
    requires
        y1 >= 0,
        1 <= m1 <= 12 && 1 <= d1 <= days_in_month(y1, m1),
        1 <= m2 <= 12 && 1 <= d2 <= days_in_month(y2, m2),
        ymd_before(y1, m1, d1, y2, m2, d2),
    ensures
        day_number(y1, m1, d1) < day_number(y2, m2, d2),
{
    lemma_months_fill_year(y1, m1);
    lemma_months_fill_year(y2, m2);
    if y1 < y2 {
        lemma_years_grow(y1, y2);
        lemma_months_grow(y1, m1, 13);
        assert(days_before_month(y2, m2) >= 0) by {
            lemma_months_grow(y2, 1, m2);
        }
    } else if m1 < m2 {
        lemma_months_grow(y1, m1, m2);
    }
}

/// The date that `Date` holds with day number `k`, where there is one.
pub open spec fn date_numbered(k: int) -> Option<Date> {
    if exists|d: Date| d.wf() && date_number(d) == k {
        Some(choose|d: Date| d.wf() && date_number(d) == k)
    } else {
        None
    }
}

/// Two dates with one number are one date.
pub proof fn lemma_date_number_injective(a: Date, b: Date)
    requires
        a.wf(),
        b.wf(),
        date_number(a) == date_number(b),
    ensures
        a == b,
{
    if ymd_before(a.year as int, a.month as int, a.day as int, b.year as int, b.month as int, b.day as int) {
        lemma_day_number_order(a.year as int, a.month as int, a.day as int, b.year as int, b.month as int, b.day as int);
    } else if ymd_before(b.year as int, b.month as int, b.day as int, a.year as int, a.month as int, a.day as int) {
        lemma_day_number_order(b.year as int, b.month as int, b.day as int, a.year as int, a.month as int, a.day as int);
    }
}

/// No date that `Date` holds lies past 9999-12-31.
pub proof fn lemma_date_number_at_most_last(d: Date)
    requires
        d.wf(),
    ensures
        date_number(d) <= last_day_number(),
{
    if ymd_before(d.year as int, d.month as int, d.day as int, MAX_YEAR as int, 12, 31) {
        lemma_day_number_order(d.year as int, d.month as int, d.day as int, MAX_YEAR as int, 12, 31);
    }
}

/// The `Date` that a triple names, where it is one that `Date` can hold.
pub open spec fn date_of_ymd(t: Option<(int, int, int)>) -> Option<Date> {
    match t {
        Some((y, m, d)) => if is_calendar_date(y, m, d) {
            Some(Date { year: y as u32, month: m as u32, day: d as u32 })
        } else {
            None
        },
        None => None,
    }
}

/// Relies on `chrono::NaiveDate::from_ymd_opt` (a valid date of years 0 to 9999
/// always exists in chrono) and `NaiveDate::checked_add_days`: the day `n`
/// days later in the proleptic Gregorian calendar, which chrono holds up to
/// year 262142 and so at least up to 9999-12-31.
#[verifier::external_body]
fn chrono_add_days(date: Date, n: u64) -> (r: Option<(i32, u32, u32)>)
    requires
        date.wf(),
    ensures
        match r {
            Some((y, m, d)) => y >= 0 && 1 <= m <= 12 && 1 <= d <= days_in_month(y as int, m as int)
                && day_number(y as int, m as int, d as int) == date_number(date) + n,
            None => date_number(date) + n > last_day_number(),
        },
{
    let start = chrono::NaiveDate::from_ymd_opt(date.year as i32, date.month, date.day).unwrap();
    start.checked_add_days(chrono::Days::new(n)).map(|d| (d.year(), d.month(), d.day()))
}

/// Relies on `chrono::NaiveDate::signed_duration_since` and `TimeDelta::num_days`:
/// the whole days from `from` to `to`, negative where `to` comes first.
#[verifier::external_body]
fn chrono_days_between(from: Date, to: Date) -> (r: i64)
    requires
        from.wf(),
        to.wf(),
    ensures
        r as int == date_number(to) - date_number(from),
{
    let a = chrono::NaiveDate::from_ymd_opt(from.year as i32, from.month, from.day).unwrap();
    let b = chrono::NaiveDate::from_ymd_opt(to.year as i32, to.month, to.day).unwrap();
    b.signed_duration_since(a).num_days()
}

/// Relies on `chrono::Local::now` and `DateTime::date_naive`: the local
/// calendar date of this moment, which, as every `NaiveDate`, names a day
/// that exists.
#[verifier::external_body]
fn chrono_local_today() -> (r: (i32, u32, u32))
    ensures
        1 <= r.1 <= 12,
        1 <= r.2 <= days_in_month(r.0 as int, r.1 as int),
{
    let now = chrono::Local::now().date_naive();
    (now.year(), now.month(), now.day())
}

impl Date {
    pub open spec fn wf(self) -> bool {
        is_calendar_date(self.year as int, self.month as int, self.day as int)
    }

    /// Chronological order: `self` is the same day as `other` or an earlier one.
    pub open spec fn spec_on_or_before(self, other: Date) -> bool {
        self.year < other.year || (self.year == other.year && (self.month < other.month || (
        self.month == other.month && self.day <= other.day)))
    }

    /// The date `(year, month, day)`, where it exists and its year has at most
    /// four digits.
    pub fn from_ymd(year: u32, month: u32, day: u32) -> (r: Option<Date>)
        ensures
            r is Some <==> is_calendar_date(year as int, month as int, day as int),
            r is Some ==> r->0 == (Date { year, month, day }),
    {
        if year > MAX_YEAR || month < 1 || month > 12 || day < 1 {
            return None;
        }
        let leap = year % 4 == 0 && (year % 100 != 0 || year % 400 == 0);
        let last: u32 = if month == 2 {
            if leap {
                29
            } else {
                28
            }
        } else if month == 4 || month == 6 || month == 9 || month == 11 {
            30
        } else {
            31
        };
        if day > last {
            None
        } else {
            Some(Date { year, month, day })
        }
    }

    /// The local date of this moment, or its year where `Date` cannot hold it.
    pub fn today() -> (r: Result<Date, i32>)
        ensures
            r is Ok ==> r->Ok_0.wf(),
            r is Err ==> r->Err_0 < 0 || r->Err_0 > MAX_YEAR,
    {
        let (y, m, d) = chrono_local_today();
        if y < 0 || y > MAX_YEAR as i32 {
            return Err(y);
        }
        match Date::from_ymd(y as u32, m, d) {
            Some(date) => Ok(date),
            None => Err(y),
        }
    }

    pub fn on_or_before(&self, other: &Date) -> (r: bool)
        ensures
            r == self.spec_on_or_before(*other),
    {
        self.year < other.year || (self.year == other.year && (self.month < other.month || (
        self.month == other.month && self.day <= other.day)))
    }

    /// The date `n` days after `self`; `None` where that leaves the years that
    /// `Date` holds.
    pub fn plus_days(&self, n: u64) -> (r: Option<Date>)
        requires
            self.wf(),
        ensures
            r == date_numbered(date_number(*self) + n),
            r is Some ==> r->0.wf() && date_number(r->0) == date_number(*self) + n,
    {
        let ghost k = date_number(*self) + n;
        match chrono_add_days(*self, n) {
            Some((y, m, d)) => {
                if y > MAX_YEAR as i32 {
                    proof {
                        assert forall|c: Date| c.wf() implies date_number(c) != k by {
                            lemma_day_number_order(c.year as int, c.month as int, c.day as int, y as int, m as int, d as int);
                        }
                    }
                    None
                } else {
                    let r = Date::from_ymd(y as u32, m, d);
                    proof {
                        let w = r->0;
                        assert(w.wf() && date_number(w) == k);
                        let c = choose|c: Date| c.wf() && date_number(c) == k;
                        lemma_date_number_injective(c, w);
                    }
                    r
                }
            },
            None => {
                proof {
                    assert forall|c: Date| c.wf() implies date_number(c) != k by {
                        lemma_date_number_at_most_last(c);
                    }
                }
                None
            },
        }
    }

    /// The signed number of days from `earlier` to `self`.
    pub fn days_since(&self, earlier: &Date) -> (r: i64)
        requires
            self.wf(),
            earlier.wf(),
        ensures
            r as int == date_number(*self) - date_number(*earlier),
    {
        chrono_days_between(*earlier, *self)
    }
}

} // verus!
