//! What holds of the parser and the age arithmetic across inputs and calls.

use crate::age::{full_years, has_anniversary, is_days_until_anniversary, anniversary_number};
use crate::calendar::{
    is_leap_year, lemma_number_order, lemma_within_year, lemma_year_step, lemma_years_ordered,
    month_day_before, ymd_number, CalendarDate,
};
use crate::record::{
    after_first_word, dash_index, date_fields, digit_char, first_word, fixed_digits, is_date_text,
    iso_text, numeral_value, parse_outcome, primary_user, skip_white, white_space, word_len,
    ParseError,
};
use vstd::prelude::*;

verus! {

/// The days until the next birthday always lead to a real date that has the
/// birth's month and day.
pub proof fn days_until_lands_on_anniversary(birth: CalendarDate, today: CalendarDate, r: int)
    requires
        birth.wf(),
        today.wf(),
        is_days_until_anniversary(birth, today, r),
    ensures
        r >= 0,
        exists|d: CalendarDate|
            d.wf() && d.month == birth.month && d.day == birth.day && #[trigger] d.number()
                == today.number() + r,
{
    let y = choose|y: int|
        has_anniversary(birth, y) && #[trigger] anniversary_number(birth, y) == today.number() + r;
    let d = CalendarDate { year: y as i32, month: birth.month, day: birth.day };
    assert(d.number() == today.number() + r);
}

/// A February 29 birthday is only ever met in a leap year: the count never
/// stops at a February 29 that the calendar lacks.
pub proof fn leap_day_birthday_falls_in_leap_year(birth: CalendarDate, today: CalendarDate, r: int)
    requires
        birth.wf(),
        birth.month == 2,
        birth.day == 29,
        today.wf(),
        is_days_until_anniversary(birth, today, r),
    ensures
        r >= 0,
        exists|y: int| is_leap_year(y) && #[trigger] ymd_number(y, 2, 29) == today.number() + r,
{
    let y = choose|y: int|
        has_anniversary(birth, y) && #[trigger] anniversary_number(birth, y) == today.number() + r;
    assert(ymd_number(y, 2, 29) == today.number() + r);
}

/// Age in full years never goes down as "today" moves forward.
pub proof fn years_never_decrease(birth: CalendarDate, t1: CalendarDate, t2: CalendarDate)
    requires
        birth.wf(),
        t1.wf(),
        t2.wf(),
        t1.number() <= t2.number(),
    ensures
        full_years(birth, t1) <= full_years(birth, t2),
{
    lemma_number_order(t1, t2);
}

/// From one day to the next the age in full years stays or grows by one, and
/// it grows exactly on the birthday, or, where the year lacks that day, on
/// the first day after it.
pub proof fn years_grow_on_birthday(birth: CalendarDate, t1: CalendarDate, t2: CalendarDate)
    requires
        birth.wf(),
        t1.wf(),
        t2.wf(),
        t2.number() == t1.number() + 1,
    ensures
        full_years(birth, t2) == full_years(birth, t1) || full_years(birth, t2) == full_years(
            birth,
            t1,
        ) + 1,
        full_years(birth, t2) == full_years(birth, t1) + 1 <==> ((t2.month == birth.month
            && t2.day == birth.day) || (month_day_before(
            t1.month as int,
            t1.day as int,
            birth.month as int,
            birth.day as int,
        ) && month_day_before(
            birth.month as int,
            birth.day as int,
            t2.month as int,
            t2.day as int,
        ))),
{
    lemma_number_order(t1, t2);
    if t1.year < t2.year {
        let (y1, y2) = (t1.year as int, t2.year as int);
        lemma_within_year(y1, t1.month as int, t1.day as int);
        lemma_within_year(y2, t2.month as int, t2.day as int);
        lemma_year_step(y1);
        if y1 + 1 < y2 {
            lemma_years_ordered(y1 + 1, y2);
            lemma_year_step(y1 + 1);
        }
    }
}

/// Ten to the power `w`.
pub open spec fn pow10(w: nat) -> nat
    decreases w,
{
    if w == 0 { 1 } else { 10 * pow10((w - 1) as nat) }
}

/// Zero-padded digits are a numeral of the given width whose value is the
/// number, when the number fits.
proof fn lemma_fixed_digits(n: nat, width: nat)
    requires
        n < pow10(width),
    ensures
        fixed_digits(n, width).len() == width,
        forall|k: int| 0 <= k < width ==> '0' <= #[trigger] fixed_digits(n, width)[k] <= '9',
        numeral_value(fixed_digits(n, width)) == n,
    decreases width,
{
    if width > 0 {
        let w1 = (width - 1) as nat;
        assert(n / 10 < pow10(w1));
        lemma_fixed_digits(n / 10, w1);
        let s = fixed_digits(n, width);
        assert(s.drop_last() =~= fixed_digits(n / 10, w1));
        let c = digit_char(n as int % 10);
        assert(c as int - '0' as int == n % 10);
        assert forall|k: int| 0 <= k < width implies '0' <= #[trigger] s[k] <= '9' by {
            if k < w1 {
                assert(s[k] == fixed_digits(n / 10, w1)[k]);
            }
        }
    } else {
        assert(n == 0);
    }
}

/// A text without white space is one word.
proof fn lemma_word_len_all(s: Seq<char>)
    requires
        forall|k: int| 0 <= k < s.len() ==> !white_space(#[trigger] s[k]),
    ensures
        word_len(s) == s.len(),
    decreases s.len(),
{
    if s.len() > 0 {
        assert forall|k: int| 0 <= k < s.drop_first().len() implies !white_space(
            #[trigger] s.drop_first()[k],
        ) by {
            assert(s.drop_first()[k] == s[k + 1]);
        }
        lemma_word_len_all(s.drop_first());
    }
}

/// The first dash of `a + "-" + b` is the one after `a`, where `a` has none.
proof fn lemma_dash_after(a: Seq<char>, b: Seq<char>)
    requires
        forall|k: int| 0 <= k < a.len() ==> #[trigger] a[k] != '-',
    ensures
        dash_index(a + seq!['-'] + b) == a.len(),
    decreases a.len(),
{
    let s = a + seq!['-'] + b;
    if a.len() > 0 {
        assert(s.drop_first() =~= a.drop_first() + seq!['-'] + b);
        assert forall|k: int| 0 <= k < a.drop_first().len() implies #[trigger] a.drop_first()[k]
            != '-' by {
            assert(a.drop_first()[k] == a[k + 1]);
        }
        lemma_dash_after(a.drop_first(), b);
    } else {
        assert(s[0] == '-');
    }
}

/// Writing a date `YYYY-MM-DD` and reading it back gives the same date, for
/// the years that four digits write.
pub proof fn iso_text_round_trip(d: CalendarDate)
    requires
        d.wf(),
        0 <= d.year <= 9999,
    ensures
        parse_outcome(iso_text(d)) == Ok::<(Seq<char>, int, int, int), ParseError>(
            (primary_user(), d.year as int, d.month as int, d.day as int),
        ),
{
    reveal_with_fuel(pow10, 5);
    let ys = fixed_digits(d.year as nat, 4);
    let ms = fixed_digits(d.month as nat, 2);
    let ds = fixed_digits(d.day as nat, 2);
    lemma_fixed_digits(d.year as nat, 4);
    lemma_fixed_digits(d.month as nat, 2);
    lemma_fixed_digits(d.day as nat, 2);
    let t = iso_text(d);
    assert(t.len() == 10);
    assert forall|k: int| 0 <= k < t.len() implies !white_space(#[trigger] t[k]) by {
        if k < 4 {
            assert(t[k] == ys[k]);
        } else if 5 <= k < 7 {
            assert(t[k] == ms[k - 5]);
        } else if 8 <= k {
            assert(t[k] == ds[k - 8]);
        }
    }
    assert(skip_white(t) == t);
    lemma_word_len_all(t);
    assert(first_word(t) =~= t);
    assert(after_first_word(t) =~= Seq::<char>::empty());
    assert(first_word(after_first_word(t)).len() == 0);
    assert(t =~= ys + seq!['-'] + (ms + seq!['-'] + ds));
    lemma_dash_after(ys, ms + seq!['-'] + ds);
    let rest = t.skip(5);
    assert(rest =~= ms + seq!['-'] + ds);
    lemma_dash_after(ms, ds);
    assert(date_fields(t).0 =~= ys);
    assert(date_fields(t).1 =~= ms);
    assert(date_fields(t).2 =~= ds);
    assert(is_date_text(t));
}

/// A date read from a line, written back as `YYYY-MM-DD` and read again, is
/// the same date.
pub proof fn reparse_gives_same_date(line: Seq<char>)
    requires
        parse_outcome(line) is Ok,
        parse_outcome(line)->Ok_0.1 <= 9999,
    ensures
        ({
            let (_, y, m, d) = parse_outcome(line)->Ok_0;
            parse_outcome(iso_text(CalendarDate { year: y as i32, month: m as u32, day: d as u32 }))
                == Ok::<(Seq<char>, int, int, int), ParseError>((primary_user(), y, m, d))
        }),
{
    let (_, y, m, d) = parse_outcome(line)->Ok_0;
    iso_text_round_trip(CalendarDate { year: y as i32, month: m as u32, day: d as u32 });
}

} // verus!
