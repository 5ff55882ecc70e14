use age::age::{birthday_notice, birthday_order, BirthdayNotice};
use age::calendar::CalendarDate;
use age::record::Person;
use chrono::Datelike;

fn date(y: i32, m: u32, d: u32) -> CalendarDate {
    CalendarDate::new(y, m, d).unwrap()
}

fn person(line: &str) -> Person {
    Person::from_str(line).unwrap()
}

fn shift(d: CalendarDate, days: i64) -> CalendarDate {
    let base = chrono::NaiveDate::from_ymd_opt(d.year, d.month, d.day).unwrap();
    let moved = base + chrono::Duration::days(days);
    date(moved.year(), moved.month(), moved.day())
}

#[test]
fn no_panic_for_special_date() {
    let person = person("1984-02-29 Ben");
    assert!(person.days_until_next_birthday(&date(2024, 3, 1)) > 0)
}

#[test]
fn leap_day_birthday_skips_to_leap_years() {
    let ben = person("1984-02-29 Ben");
    assert_eq!(1095, ben.days_until_next_birthday(&date(1985, 3, 1)));
    assert_eq!(1460, ben.days_until_next_birthday(&date(2100, 3, 1)));
    assert_eq!(1460, ben.days_until_next_birthday(&date(2024, 3, 1)));
    assert_eq!(0, ben.days_until_next_birthday(&date(1984, 2, 29)));
    assert_eq!(1, ben.days_until_next_birthday(&date(2028, 2, 28)));
}

#[test]
fn next_birthday_lands_on_the_birth_month_and_day() {
    for line in ["1984-02-29 Ben", "1980-05-10 Anne", "1970-01-01", "1999-12-31 Z"] {
        let p = person(line);
        let mut today = date(2095, 1, 1);
        for _ in 0..(366 * 10) {
            let r = p.days_until_next_birthday(&today);
            assert!(r >= 0);
            let at = shift(today, r as i64);
            assert_eq!((p.birth.month, p.birth.day), (at.month, at.day));
            for k in 0..r {
                let between = shift(today, k as i64);
                assert_ne!((p.birth.month, p.birth.day), (between.month, between.day));
            }
            today = shift(today, 1);
        }
    }
}

#[test]
fn next_birthday_from_year_skips_missing_days() {
    let ben = person("1984-02-29 Ben");
    assert_eq!(date(1988, 2, 29), ben.next_birthday_from_year(1985));
    assert_eq!(date(1904, 2, 29), ben.next_birthday_from_year(1897));
    assert_eq!(date(2000, 2, 29), ben.next_birthday_from_year(2000));
    let anne = person("1980-05-10 Anne");
    assert_eq!(date(1981, 5, 10), anne.next_birthday_from_year(1981));
}

#[test]
fn days_counts_the_whole_days() {
    let anne = person("1980-05-10 Anne");
    assert_eq!(16071, anne.days(&date(2024, 5, 10)));
    assert_eq!(0, anne.days(&date(1980, 5, 10)));
    assert_eq!(-1, anne.days(&date(1980, 5, 9)));
    assert_eq!(20693, person("1970-02-20").days(&date(2026, 10, 17)));
}

#[test]
fn years_counts_full_years() {
    let anne = person("1980-05-10 Anne");
    assert_eq!(43, anne.years(&date(2024, 5, 9)));
    assert_eq!(44, anne.years(&date(2024, 5, 10)));
    assert_eq!(43, anne.years(&date(2024, 4, 30)));
    assert_eq!(44, anne.years(&date(2024, 6, 1)));
    assert_eq!(0, anne.years(&date(1980, 5, 10)));
}

#[test]
fn years_grow_once_a_year() {
    let ben = person("1984-02-29 Ben");
    assert_eq!(38, ben.years(&date(2023, 2, 28)));
    assert_eq!(39, ben.years(&date(2023, 3, 1)));
    assert_eq!(39, ben.years(&date(2024, 2, 28)));
    assert_eq!(40, ben.years(&date(2024, 2, 29)));
    for line in ["1984-02-29 Ben", "1980-05-10 Anne", "1970-01-01", "1999-12-31 Z"] {
        let p = person(line);
        let mut today = date(2020, 1, 1);
        let mut grew = 0;
        for _ in 0..(366 * 4) {
            let next = shift(today, 1);
            let (a, b) = (p.years(&today), p.years(&next));
            assert!(b == a || b == a + 1);
            if b == a + 1 {
                grew += 1;
            }
            today = next;
        }
        assert_eq!(4, grew, "{}", line);
    }
}

#[test]
fn notices_by_days_left() {
    assert_eq!(Some(BirthdayNotice::Today), birthday_notice(0));
    assert_eq!(Some(BirthdayNotice::Tomorrow), birthday_notice(1));
    assert_eq!(Some(BirthdayNotice::InDays(2)), birthday_notice(2));
    assert_eq!(Some(BirthdayNotice::InDays(14)), birthday_notice(14));
    assert_eq!(None, birthday_notice(15));
    assert_eq!(None, birthday_notice(-1));
    assert_eq!(None, birthday_notice(365));
}

#[test]
fn birthday_order_sorts_by_month_and_day_keeping_ties() {
    let lines: Vec<String> = vec![
        "1990-12-01 Dec".to_string(),
        "1980-05-10 Anne".to_string(),
        "1970-02-20".to_string(),
        "2001-05-10 Twin".to_string(),
        "1984-02-29 Ben".to_string(),
        "1975-05-09 May".to_string(),
    ];
    let persons = age::record::parse_records(&lines);
    let order = birthday_order(&persons);
    assert_eq!(vec![2, 4, 5, 1, 3, 0], order);
    assert!(birthday_order(&Vec::new()).is_empty());
}
