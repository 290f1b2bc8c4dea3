use worklog::date::Date;
use worklog::error::WorklogError;

fn day(year: i32, month: u32, day: u32) -> Date {
    Date { year, month, day }
}

#[test]
fn reads_the_date_of_a_line() {
    assert_eq!(Date::parse_line_date("2015-09-05"), Ok(day(2015, 9, 5)));
    assert_eq!(Date::parse_line_date("2024-02-29"), Ok(day(2024, 2, 29)));
    assert_eq!(Date::parse_line_date("0001-01-01"), Ok(day(1, 1, 1)));
}

#[test]
fn refuses_what_is_no_date() {
    assert_eq!(Date::parse_line_date("2024-13-40"), Err(WorklogError::WrongDateFormat));
    assert_eq!(Date::parse_line_date("2015/09/05"), Err(WorklogError::WrongDateFormat));
    assert_eq!(Date::parse_line_date("2015-09-31"), Err(WorklogError::WrongDateFormat));
    assert_eq!(Date::parse_line_date(""), Err(WorklogError::WrongDateFormat));
    assert_eq!(Date::parse_line_date("2015-09-05 extra"), Err(WorklogError::WrongDateFormat));
}

#[test]
fn reads_the_minimum_date() {
    assert_eq!(Date::parse_min_date("2015-09-18"), Ok(day(2015, 9, 18)));
    assert_eq!(Date::parse_min_date("+12345-6-7"), Ok(day(12345, 6, 7)));
    assert_eq!(Date::parse_min_date("foo"), Err(WorklogError::InvalidMinDate));
    assert_eq!(Date::parse_min_date("2024-13-40"), Err(WorklogError::InvalidMinDate));
}

#[test]
fn a_parsed_date_or_the_error() {
    assert_eq!(Date::from_parsed(Some(day(2024, 1, 1)), WorklogError::InvalidMinDate), Ok(day(2024, 1, 1)));
    assert_eq!(Date::from_parsed(None, WorklogError::InvalidMinDate), Err(WorklogError::InvalidMinDate));
    assert_eq!(Date::from_parsed(None, WorklogError::WrongDateFormat), Err(WorklogError::WrongDateFormat));
}

#[test]
fn orders_dates_by_year_month_day() {
    let a = day(2024, 1, 31);
    let b = day(2024, 2, 1);
    let c = day(2023, 12, 31);
    assert!(a.not_after(&b));
    assert!(!b.not_after(&a));
    assert!(a.not_after(&a));
    assert!(c.not_after(&a));
    assert!(!a.not_after(&c));
    assert!(day(2024, 2, 1).not_after(&day(2024, 2, 2)));
    assert!(!day(2024, 2, 2).not_after(&day(2024, 2, 1)));
}

#[test]
fn every_error_has_its_message() {
    assert_eq!(WorklogError::NoMessage.message(), "No message found");
    assert_eq!(WorklogError::NoAuthor.message(), "No author found");
    assert_eq!(WorklogError::WrongDateFormat.message(), "Wrong date format");
    assert_eq!(WorklogError::InvalidMinDate.message(), "Error parsing the date");
    assert_eq!(WorklogError::InvalidPattern.message(), "Invalid regex pattern");
}
