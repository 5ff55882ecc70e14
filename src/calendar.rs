//! Calendar dates in the proleptic Gregorian calendar, and the day count that
//! orders them.

use chrono::Datelike;
use vstd::prelude::*;

verus! {

/// Earliest year that a date can carry.
pub const MIN_YEAR: i32 = -262143;

/// Latest year that a date can carry.
pub const MAX_YEAR: i32 = 262142;

pub open spec fn is_leap_year(y: int) -> bool {
    y % 4 == 0 && (y % 100 != 0 || y % 400 == 0)
}

pub open spec fn days_in_month(y: int, m: int) -> int {
    if m == 2 {
        if is_leap_year(y) { 29 } else { 28 }
    } else if m == 4 || m == 6 || m == 9 || m == 11 {
        30
    } else {
        31
    }
}

pub open spec fn year_length(y: int) -> int {
    if is_leap_year(y) { 366 } else { 365 }
}

/// A year/month/day triple that names a real day of the calendar.
pub open spec fn valid_ymd(y: int, m: int, d: int) -> bool {
    MIN_YEAR <= y <= MAX_YEAR && 1 <= m <= 12 && 1 <= d <= days_in_month(y, m)
}

/// Days of all the years before `y`, counted from January 1 of year 1.
pub open spec fn days_before_year(y: int) -> int {
    365 * (y - 1) + (y - 1) / 4 - (y - 1) / 100 + (y - 1) / 400
}

/// Days of the months of year `y` that come before month `m`.
pub open spec fn days_before_month(y: int, m: int) -> int {
    let common: int = if m <= 1 {
        0
    } else if m == 2 {
        31
    } else if m == 3 {
        59
    } else if m == 4 {
        90
    } else if m == 5 {
        120
    } else if m == 6 {
        151
    } else if m == 7 {
        181
    } else if m == 8 {
        212
    } else if m == 9 {
        243
    } else if m == 10 {
        273
    } else if m == 11 {
        304
    } else if m == 12 {
        334
    } else {
        365
    };
    if m > 2 && is_leap_year(y) { common + 1 } else { common }
}

/// The day's number in the count where January 1 of year 1 is day 1.
pub open spec fn ymd_number(y: int, m: int, d: int) -> int {
    days_before_year(y) + days_before_month(y, m) + d
}

/// `(m1, d1)` comes strictly before `(m2, d2)` within a year.
pub open spec fn month_day_before(m1: int, d1: int, m2: int, d2: int) -> bool {
    m1 < m2 || (m1 == m2 && d1 < d2)
}

/// A calendar date: no time of day, no time zone.
#[derive(Clone, Copy, Debug, PartialEq, Eq, Hash, Structural)]
pub struct CalendarDate {
    pub year: i32,
    pub month: u32,
    pub day: u32,
}

impl CalendarDate {
    /// The triple names a real day.
    pub open spec fn wf(&self) -> bool {
        valid_ymd(self.year as int, self.month as int, self.day as int)
    }

    /// The date's position in the day count.
    pub open spec fn number(&self) -> int {
        ymd_number(self.year as int, self.month as int, self.day as int)
    }

    /// Strictly earlier in the calendar, year first, then month, then day.
    pub open spec fn before(&self, other: CalendarDate) -> bool {
        self.year < other.year || (self.year == other.year && month_day_before(
            self.month as int,
            self.day as int,
            other.month as int,
            other.day as int,
        ))
    }

    /// The date with these parts, where it exists.
    pub fn new(year: i32, month: u32, day: u32) -> (r: Option<CalendarDate>)
        ensures
            r is Some <==> valid_ymd(year as int, month as int, day as int),
            r is Some ==> r->0 == (CalendarDate { year, month, day }),
    {
        if ymd_exists(year, month, day) {
            Some(CalendarDate { year, month, day })
        } else {
            None
        }
    }
}

/// Relies on chrono's `NaiveDate::from_ymd_opt`, which gives a date exactly
/// when the year is in its range, the month in 1..=12 and the day within the
/// month's length for that year.
#[verifier::external_body]
pub(crate) fn ymd_exists(year: i32, month: u32, day: u32) -> (r: bool)
    ensures
        r == valid_ymd(year as int, month as int, day as int),
{
    chrono::NaiveDate::from_ymd_opt(year, month, day).is_some()
}

/// Relies on chrono's `Datelike::num_days_from_ce`: the number of the day in
/// the proleptic Gregorian count where January 1 of year 1 is day 1. The
/// chrono date is built with `NaiveDate::from_ymd_opt`, which succeeds on a
/// valid date.
#[verifier::external_body]
pub(crate) fn days_from_ce(date: &CalendarDate) -> (r: i32)
    requires
        date.wf(),
    ensures
        r == date.number(),
{
    chrono::NaiveDate::from_ymd_opt(date.year, date.month, date.day).unwrap().num_days_from_ce()
}

/// One more year adds that year's length to the count.
pub proof fn lemma_year_step(y: int)
    ensures
        days_before_year(y + 1) == days_before_year(y) + year_length(y),
{
    assert(y / 4 - (y - 1) / 4 == if y % 4 == 0 { 1int } else { 0 });
    assert(y / 100 - (y - 1) / 100 == if y % 100 == 0 { 1int } else { 0 });
    assert(y / 400 - (y - 1) / 400 == if y % 400 == 0 { 1int } else { 0 });
}

/// Within its year, a valid date falls between day one and the year's last day.
pub proof fn lemma_within_year(y: int, m: int, d: int)
    requires
        valid_ymd(y, m, d),
    ensures
        1 <= days_before_month(y, m) + d <= year_length(y),
        days_before_month(y, m) + d == 1 <==> (m == 1 && d == 1),
        days_before_month(y, m) + d == year_length(y) <==> (m == 12 && d == 31),
{
}

/// A later year starts no earlier than the end of an earlier one.
pub proof fn lemma_years_ordered(y1: int, y2: int)
    requires
        y1 < y2,
    ensures
        days_before_year(y1) + year_length(y1) <= days_before_year(y2),
    decreases y2 - y1,
{
    lemma_year_step(y1);
    if y1 + 1 < y2 {
        lemma_years_ordered(y1 + 1, y2);
    }
}

/// Earlier in the calendar means a smaller day number.
pub proof fn lemma_before_number(a: CalendarDate, b: CalendarDate)
    requires
        a.wf(),
        b.wf(),
        a.before(b),
    ensures
        a.number() < b.number(),
{
    lemma_within_year(a.year as int, a.month as int, a.day as int);
    lemma_within_year(b.year as int, b.month as int, b.day as int);
    if a.year < b.year {
        lemma_years_ordered(a.year as int, b.year as int);
    }
}

/// The day number orders valid dates exactly as the calendar does.
pub proof fn lemma_number_order(a: CalendarDate, b: CalendarDate)
    requires
        a.wf(),
        b.wf(),
    ensures
        a.before(b) <==> a.number() < b.number(),
        a == b <==> a.number() == b.number(),
{
    if a.before(b) {
        lemma_before_number(a, b);
    } else if b.before(a) {
        lemma_before_number(b, a);
    }
}

/// The day numbers of valid dates stay well inside 32 bits.
pub proof fn lemma_number_bounds(a: CalendarDate)
    requires
        a.wf(),
    ensures
        -100_000_000 <= a.number() <= 100_000_000,
{
    let y = a.year as int - 1;
    assert(-262144 <= y <= 262141);
    assert(-65536 <= y / 4 <= 65535);
    assert(-2622 <= y / 100 <= 2621);
    assert(-656 <= y / 400 <= 655);
    assert(-95_682_560 <= 365 * y <= 95_681_465) by (nonlinear_arith)
        requires
            -262144 <= y <= 262141,
    ;
    lemma_within_year(a.year as int, a.month as int, a.day as int);
}

} // verus!
