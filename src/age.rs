//! Ages and anniversaries of a record, against a given "today".

use crate::calendar::{
    days_from_ce, is_leap_year, lemma_number_bounds, lemma_number_order, month_day_before,
    valid_ymd, ymd_exists, ymd_number, CalendarDate, MAX_YEAR, MIN_YEAR,
};
use crate::record::Person;
use vstd::prelude::*;

verus! {

/// The anniversary of `birth` falls on a real day of year `y`.
pub open spec fn has_anniversary(birth: CalendarDate, y: int) -> bool {
    valid_ymd(y, birth.month as int, birth.day as int)
}

/// Day number of the anniversary of `birth` in year `y`.
pub open spec fn anniversary_number(birth: CalendarDate, y: int) -> int {
    ymd_number(y, birth.month as int, birth.day as int)
}

/// `r` days from `today` is the soonest anniversary of `birth` on or after
/// `today`.
pub open spec fn is_days_until_anniversary(birth: CalendarDate, today: CalendarDate, r: int) -> bool {
    &&& r >= 0
    &&& exists|y: int|
        has_anniversary(birth, y) && #[trigger] anniversary_number(birth, y) == today.number() + r
    &&& forall|y: int|
        has_anniversary(birth, y) && #[trigger] anniversary_number(birth, y) >= today.number()
            ==> anniversary_number(birth, y) >= today.number() + r
}

/// Full years from `birth` to `today`: the difference of the years, one less
/// where today's month and day come before the birth's.
pub open spec fn full_years(birth: CalendarDate, today: CalendarDate) -> int {
    today.year - birth.year - if month_day_before(
        today.month as int,
        today.day as int,
        birth.month as int,
        birth.day as int,
    ) {
        1int
    } else {
        0int
    }
}

/// Some year in `y..=y + 7` is a leap year.
pub proof fn lemma_leap_year_within_eight(y: int) -> (k: int)
    ensures
        0 <= k <= 7,
        is_leap_year(y + k),
{
    let first = if y % 4 == 0 { 0int } else { 4 - y % 4 };
    if (y + first) % 100 != 0 {
        first
    } else {
        assert((y + first + 4) % 100 == 4);
        first + 4
    }
}

/// A valid month and day recur within any eight years of the calendar.
pub proof fn lemma_anniversary_within_eight(birth: CalendarDate, y: int) -> (k: int)
    requires
        birth.wf(),
        MIN_YEAR <= y,
        y + 7 <= MAX_YEAR,
    ensures
        0 <= k <= 7,
        has_anniversary(birth, y + k),
{
    if birth.month == 2 && birth.day == 29 {
        lemma_leap_year_within_eight(y)
    } else {
        0
    }
}

/// How near a birthday is, where it is near enough to mention.
#[derive(Clone, Copy, Debug, PartialEq, Eq, Structural)]
pub enum BirthdayNotice {
    Today,
    Tomorrow,
    /// In this many days, from 2 to 14.
    InDays(i32),
}

/// Days of notice at most given before a birthday.
pub const NOTICE_DAYS: i32 = 14;

/// The notice for a birthday `remaining` days away: today, tomorrow, in 2 to
/// 14 days, or none.
pub fn birthday_notice(remaining: i32) -> (r: Option<BirthdayNotice>)
    ensures
        remaining == 0 <==> r == Some(BirthdayNotice::Today),
        remaining == 1 <==> r == Some(BirthdayNotice::Tomorrow),
        2 <= remaining <= NOTICE_DAYS <==> r == Some(BirthdayNotice::InDays(remaining)),
        (remaining < 0 || remaining > NOTICE_DAYS) <==> r is None,
{
    if remaining == 0 {
        Some(BirthdayNotice::Today)
    } else if remaining == 1 {
        Some(BirthdayNotice::Tomorrow)
    } else if 2 <= remaining && remaining <= NOTICE_DAYS {
        Some(BirthdayNotice::InDays(remaining))
    } else {
        None
    }
}

/// Record `a` comes before record `b` in birthday order: by month and day,
/// and in list order where those agree.
pub open spec fn birthday_precedes(persons: Seq<Person>, a: int, b: int) -> bool {
    let (x, y) = (persons[a].birth, persons[b].birth);
    month_day_before(x.month as int, x.day as int, y.month as int, y.day as int) || (x.month
        == y.month && x.day == y.day && a < b)
}

/// `a`'s month and day come after `b`'s within a year.
fn month_day_later(a: &CalendarDate, b: &CalendarDate) -> (r: bool)
    ensures
        r == month_day_before(b.month as int, b.day as int, a.month as int, a.day as int),
{
    a.month > b.month || (a.month == b.month && a.day > b.day)
}

/// The indices of the records in birthday order: each index once, ordered by
/// month and day, equal birthdays in list order.
pub fn birthday_order(persons: &Vec<Person>) -> (r: Vec<usize>)
    ensures
        r@.len() == persons@.len(),
        forall|k: int| 0 <= k < r@.len() ==> #[trigger] r@[k] < persons@.len(),
        forall|i: int, j: int|
            0 <= i < j < r@.len() ==> birthday_precedes(persons@, #[trigger] r@[i] as int, #[trigger] r@[j] as int),
{
    let n = persons.len();
    let mut order: Vec<usize> = Vec::new();
    let mut i: usize = 0;
    while i < n
        invariant
            i <= n == persons@.len(),
            order@.len() == i,
            forall|k: int| 0 <= k < order@.len() ==> #[trigger] order@[k] < i,
            forall|a: int, b: int|
                0 <= a < b < order@.len() ==> birthday_precedes(persons@, #[trigger] order@[a] as int, #[trigger] order@[b] as int),
        decreases n - i,
    {
        let key = persons[i].birth;
        let mut pos = order.len();
        while pos > 0 && month_day_later(&persons[order[pos - 1]].birth, &key)
            invariant
                pos <= order@.len() == i,
                key == persons@[i as int].birth,
                i < n == persons@.len(),
                forall|k: int| 0 <= k < order@.len() ==> #[trigger] order@[k] < i,
                forall|k: int| pos <= k < order@.len() ==> birthday_precedes(persons@, i as int, #[trigger] order@[k] as int),
            decreases pos,
        {
            pos = pos - 1;
        }
        let ghost before = order@;
        proof {
            if pos > 0 {
                assert forall|k: int| 0 <= k < pos implies birthday_precedes(persons@, #[trigger] before[k] as int, i as int) by {
                    if k < pos - 1 {
                        assert(birthday_precedes(persons@, before[k] as int, before[pos - 1] as int));
                    }
                }
            }
        }
        order.insert(pos, i);
        assert forall|a: int, b: int|
            0 <= a < b < order@.len() implies birthday_precedes(persons@, #[trigger] order@[a] as int, #[trigger] order@[b] as int) by {
            if a < pos && b < pos {
                assert(order@[a] == before[a] && order@[b] == before[b]);
            } else if a < pos && b == pos {
                assert(order@[a] == before[a]);
            } else if a < pos {
                assert(order@[a] == before[a] && order@[b] == before[b - 1]);
                assert(birthday_precedes(persons@, before[a] as int, i as int));
            } else if a == pos {
                assert(order@[b] == before[b - 1]);
            } else {
                assert(order@[a] == before[a - 1] && order@[b] == before[b - 1]);
            }
        }
        i = i + 1;
    }
    order
}

impl Person {
    /// Days from the birth date to `today` (negative where the birth is later).
    pub fn days(&self, today: &CalendarDate) -> (r: i32)
        requires
            self.birth.wf(),
            today.wf(),
        ensures
            r == today.number() - self.birth.number(),
    {
        proof {
            lemma_number_bounds(self.birth);
            lemma_number_bounds(*today);
        }
        days_from_ce(today) - days_from_ce(&self.birth)
    }

    /// Full years of age on `today`.
    pub fn years(&self, today: &CalendarDate) -> (r: i32)
        requires
            self.birth.wf(),
            today.wf(),
        ensures
            r == full_years(self.birth, *today),
    {
        let year_diff = today.year - self.birth.year;
        if today.month < self.birth.month || (today.month == self.birth.month && today.day
            < self.birth.day) {
            year_diff - 1
        } else {
            year_diff
        }
    }

    /// The first anniversary of the birth date in year `year` or later.
    pub fn next_birthday_from_year(&self, year: i32) -> (r: CalendarDate)
        requires
            self.birth.wf(),
            MIN_YEAR <= year,
            year + 7 <= MAX_YEAR,
        ensures
            r.wf(),
            r.month == self.birth.month,
            r.day == self.birth.day,
            year <= r.year <= year + 7,
            forall|y: int| year <= y < r.year ==> !has_anniversary(self.birth, y),
    {
        let ghost k = lemma_anniversary_within_eight(self.birth, year as int);
        let mut y = year;
        while !ymd_exists(y, self.birth.month, self.birth.day)
            invariant
                year <= y <= year + k,
                has_anniversary(self.birth, year + k),
                forall|z: int| year <= z < y ==> !has_anniversary(self.birth, z),
            decreases year + k - y,
        {
            y = y + 1;
        }
        CalendarDate { year: y, month: self.birth.month, day: self.birth.day }
    }

    /// Days from `today` to the soonest anniversary of the birth date that
    /// falls on or after `today`, skipping years without that day.
    pub fn days_until_next_birthday(&self, today: &CalendarDate) -> (r: i32)
        requires
            self.birth.wf(),
            today.wf(),
            today.year + 8 <= MAX_YEAR,
        ensures
            is_days_until_anniversary(self.birth, *today, r as int),
    {
        let birth = self.birth;
        let first = self.next_birthday_from_year(today.year);
        let now = days_from_ce(today);
        let mut next = first;
        let mut at = days_from_ce(&first);
        proof {
            lemma_number_order(first, *today);
        }
        if at < now {
            next = self.next_birthday_from_year(first.year + 1);
            at = days_from_ce(&next);
            proof {
                lemma_number_order(*today, next);
            }
        }
        proof {
            lemma_number_bounds(*today);
            lemma_number_bounds(next);
            assert(anniversary_number(birth, next.year as int) == now + (at - now));
            assert forall|y: int|
                has_anniversary(birth, y) && #[trigger] anniversary_number(birth, y)
                    >= today.number() implies anniversary_number(birth, y) >= today.number() + (
            at - now) by {
                let other = CalendarDate { year: y as i32, month: birth.month, day: birth.day };
                assert(other.number() == anniversary_number(birth, y));
                lemma_number_order(other, *today);
                lemma_number_order(other, next);
                lemma_number_order(other, first);
            }
        }
        at - now
    }
}

} // verus!
