use age::calendar::CalendarDate;
use age::record::{parse_records, ParseError, Person};

fn date(y: i32, m: u32, d: u32) -> CalendarDate {
    CalendarDate::new(y, m, d).unwrap()
}

#[test]
fn parse_valid_date() {
    let person = Person::from_str("1970-02-20").unwrap();
    assert_eq!("You", person.name);
    assert_eq!(date(1970, 2, 20), person.birth);
}

#[test]
fn parse_other_persons_date() {
    let person = Person::from_str("1980-05-10 Anne").unwrap();
    assert_eq!("Anne", person.name);
    assert_eq!(date(1980, 5, 10), person.birth);
}

#[test]
fn parse_empty_string() {
    let error = Person::from_str("").unwrap_err();
    assert_eq!("No data", error.message());
}

#[test]
fn parse_invalid_date() {
    let error = Person::from_str("1980-0510").unwrap_err();
    assert_eq!("Invalid date", error.message());
}

#[test]
fn parse_invalid_date2() {
    let error = Person::from_str("1980-20-10").unwrap_err();
    assert_eq!("Invalid date", error.message());
}

#[test]
fn parse_with_trailing_strings() {
    let person = Person::from_str("1980-05-10 Anne X Y Z").unwrap();
    assert_eq!("Anne", person.name);
    assert_eq!(date(1980, 5, 10), person.birth);
}

#[test]
fn error_kinds_of_the_documented_lines() {
    assert_eq!(ParseError::EmptyRecord, Person::from_str("").unwrap_err());
    assert_eq!(ParseError::InvalidDateFormat, Person::from_str("1980-0510").unwrap_err());
    assert_eq!(ParseError::InvalidDate, Person::from_str("1980-20-10").unwrap_err());
}

#[test]
fn white_space_only_is_empty() {
    assert_eq!(ParseError::EmptyRecord, Person::from_str("  \t \n").unwrap_err());
    assert_eq!(ParseError::EmptyRecord, Person::from_str("\u{3000}\u{a0}").unwrap_err());
}

#[test]
fn unicode_white_space_separates_fields() {
    let person = Person::from_str("\u{2003}1980-05-10\u{a0}Anne\u{3000}X").unwrap();
    assert_eq!("Anne", person.name);
    assert_eq!(date(1980, 5, 10), person.birth);
}

#[test]
fn malformed_date_fields() {
    for line in [
        "1980-05",
        "1980-05-10-01",
        "+1980-05-10",
        "1980-+5-10",
        "1980-05-1a",
        "1980--05-10",
        "1980-05-",
        "-1980-05-10",
        "1980.05.10",
        "Anne 1980-05-10",
    ] {
        assert_eq!(ParseError::InvalidDateFormat, Person::from_str(line).unwrap_err(), "{}", line);
    }
}

#[test]
fn impossible_dates() {
    for line in [
        "2023-02-29",
        "1900-02-29",
        "1980-00-10",
        "1980-04-31",
        "1980-05-00",
        "1980-13-01",
        "99999999999999-01-01",
        "1980-01-99999999999999",
        "262143-01-01",
    ] {
        assert_eq!(ParseError::InvalidDate, Person::from_str(line).unwrap_err(), "{}", line);
    }
}

#[test]
fn leap_days_and_wide_years_parse() {
    assert_eq!(date(2000, 2, 29), Person::from_str("2000-02-29").unwrap().birth);
    assert_eq!(date(2024, 2, 29), Person::from_str("2024-2-29 Ben").unwrap().birth);
    assert_eq!(date(262142, 12, 31), Person::from_str("262142-12-31").unwrap().birth);
    assert_eq!(date(0, 1, 1), Person::from_str("0000-01-01").unwrap().birth);
    assert_eq!(date(1980, 5, 10), Person::from_str("01980-005-0010").unwrap().birth);
}

#[test]
fn messages_of_errors() {
    assert_eq!("No data", ParseError::EmptyRecord.message());
    assert_eq!("Invalid date", ParseError::InvalidDateFormat.message());
    assert_eq!("Invalid date", ParseError::InvalidDate.message());
}

#[test]
fn primary_user_is_the_unnamed_record() {
    assert!(Person::from_str("1970-02-20").unwrap().is_primary_user());
    assert!(Person::from_str("1970-02-20 You").unwrap().is_primary_user());
    assert!(!Person::from_str("1970-02-20 Anne").unwrap().is_primary_user());
}

#[test]
fn records_keep_parsed_lines_in_order() {
    let lines: Vec<String> = vec![
        "1970-02-20".to_string(),
        "".to_string(),
        "1980-20-10 Bad".to_string(),
        "1980-05-10 Anne".to_string(),
        "nonsense".to_string(),
        "1984-02-29 Ben extra".to_string(),
    ];
    let persons = parse_records(&lines);
    assert_eq!(3, persons.len());
    assert_eq!("You", persons[0].name);
    assert_eq!("Anne", persons[1].name);
    assert_eq!(date(1980, 5, 10), persons[1].birth);
    assert_eq!("Ben", persons[2].name);
    assert_eq!(date(1984, 2, 29), persons[2].birth);
}

#[test]
fn rendered_date_parses_back() {
    for line in ["1970-02-20", "1984-02-29 Ben", "0007-01-09 X", "9999-12-31"] {
        let first = Person::from_str(line).unwrap().birth;
        let text = format!("{:04}-{:02}-{:02}", first.year, first.month, first.day);
        let again = Person::from_str(&text).unwrap();
        assert_eq!(first, again.birth);
        assert_eq!("You", again.name);
    }
}

#[test]
fn calendar_date_new_checks_the_calendar() {
    assert!(CalendarDate::new(2024, 2, 29).is_some());
    assert!(CalendarDate::new(2023, 2, 29).is_none());
    assert!(CalendarDate::new(2000, 2, 29).is_some());
    assert!(CalendarDate::new(2100, 2, 29).is_none());
    assert!(CalendarDate::new(-262143, 1, 1).is_some());
    assert!(CalendarDate::new(-262144, 12, 31).is_none());
    assert!(CalendarDate::new(2024, 6, 31).is_none());
}
