use worklog::date::Date;
use worklog::error::WorklogError;
use worklog::models::find_commas;
use worklog::models::CommandOutput;
use worklog::models::Config;
use worklog::models::IssueLog;
use worklog::text::chars_of;

fn day(year: i32, month: u32, day: u32) -> Date {
    Date { year, month, day }
}

fn row(date: Date, issue: &str) -> IssueLog {
    IssueLog { date, issue: String::from(issue) }
}

#[test]
fn parses_a_quoted_line() {
    let record = CommandOutput::new(String::from("'2024-01-01,FIX-1 | fix bug,alice'")).unwrap();
    assert_eq!(record.date, day(2024, 1, 1));
    assert_eq!(record.message, "FIX-1 | fix bug");
    assert_eq!(record.author, "alice");
}

#[test]
fn parses_a_line_without_quotes() {
    let record = CommandOutput::new(String::from("2023-12-31,subject,Bob Builder")).unwrap();
    assert_eq!(
        record,
        CommandOutput {
            date: day(2023, 12, 31),
            message: String::from("subject"),
            author: String::from("Bob Builder"),
        }
    );
}

#[test]
fn parsing_gives_back_date_and_author() {
    let line = format!("'{},{},{}'", "2024-02-29", "ABC-7 | leap day", "Carol O'Hara");
    let record = CommandOutput::new(line).unwrap();
    assert_eq!(record.date, day(2024, 2, 29));
    assert_eq!(record.message, "ABC-7 | leap day");
    assert_eq!(record.author, "Carol O'Hara");
}

#[test]
fn only_the_first_two_commas_part_fields() {
    let record = CommandOutput::new(String::from("'2024-01-01,msg,Doe, John'")).unwrap();
    assert_eq!(record.message, "msg");
    assert_eq!(record.author, "Doe, John");
}

#[test]
fn a_comma_in_the_message_ends_the_message() {
    let record = CommandOutput::new(String::from("'2024-01-01,fix a, b and c,alice'")).unwrap();
    assert_eq!(record.message, "fix a");
    assert_eq!(record.author, " b and c,alice");
}

#[test]
fn strips_one_quote_at_each_end_only() {
    let record = CommandOutput::new(String::from("''2024-01-01,it's,alice''"));
    assert_eq!(record, Err(WorklogError::WrongDateFormat));
    let record = CommandOutput::new(String::from("'2024-01-01,it's,alice''")).unwrap();
    assert_eq!(record.message, "it's");
    assert_eq!(record.author, "alice'");
}

#[test]
fn empty_fields_are_fields() {
    let record = CommandOutput::new(String::from("'2024-01-01,,'")).unwrap();
    assert_eq!(record.message, "");
    assert_eq!(record.author, "");
}

#[test]
fn a_line_without_comma_has_no_message() {
    assert_eq!(CommandOutput::new(String::from("'2024-01-01'")), Err(WorklogError::NoMessage));
    assert_eq!(CommandOutput::new(String::new()), Err(WorklogError::NoMessage));
    assert_eq!(CommandOutput::new(String::from("'")), Err(WorklogError::NoMessage));
}

#[test]
fn a_line_with_one_comma_has_no_author() {
    assert_eq!(CommandOutput::new(String::from("'2024-01-01,msg'")), Err(WorklogError::NoAuthor));
}

#[test]
fn a_missing_field_is_reported_before_the_date() {
    assert_eq!(CommandOutput::new(String::from("'nonsense,msg'")), Err(WorklogError::NoAuthor));
}

#[test]
fn rejects_a_date_that_is_none() {
    let r = CommandOutput::new(String::from("'2024-13-40,FIX-1 | fix bug,alice'"));
    assert_eq!(r, Err(WorklogError::WrongDateFormat));
    let r = CommandOutput::new(String::from("'2023-02-29,FIX-1 | fix bug,alice'"));
    assert_eq!(r, Err(WorklogError::WrongDateFormat));
    let r = CommandOutput::new(String::from("',msg,alice'"));
    assert_eq!(r, Err(WorklogError::WrongDateFormat));
}

#[test]
fn parses_a_span_of_a_longer_text() {
    let chars = chars_of("xx'2024-05-06,m,a'yy");
    let record = CommandOutput::from_chars(&chars, 2, 18).unwrap();
    assert_eq!(record.date, day(2024, 5, 6));
    assert_eq!(record.message, "m");
    assert_eq!(record.author, "a");
}

#[test]
fn finds_the_two_commas() {
    let chars = chars_of("ab,cd,ef,gh");
    assert_eq!(find_commas(&chars, 0, chars.len()), Ok((2, 5)));
    assert_eq!(find_commas(&chars, 3, chars.len()), Ok((5, 8)));
    assert_eq!(find_commas(&chars, 6, chars.len()), Err(WorklogError::NoAuthor));
    assert_eq!(find_commas(&chars, 9, chars.len()), Err(WorklogError::NoMessage));
    assert_eq!(find_commas(&chars, 0, 5), Err(WorklogError::NoAuthor));
}

#[test]
fn a_row_is_made_of_key_and_date() {
    let made = IssueLog::new((String::from("FIX-1"), day(2024, 1, 1)));
    assert_eq!(made, row(day(2024, 1, 1), "FIX-1"));
}

#[test]
fn collapses_the_rows_of_a_day() {
    let rows = vec![
        row(day(2024, 1, 1), "A"),
        row(day(2024, 1, 1), "B"),
        row(day(2024, 1, 1), "C"),
    ];
    assert_eq!(IssueLog::collaps_logs(rows), row(day(2024, 1, 1), "A;B;C"));
}

#[test]
fn collapsing_one_row_gives_it_back() {
    assert_eq!(IssueLog::collaps_logs(vec![row(day(2024, 3, 4), "X-9")]), row(day(2024, 3, 4), "X-9"));
}

#[test]
fn collapsing_takes_the_date_of_the_first_row() {
    let rows = vec![row(day(2024, 1, 2), "A"), row(day(2024, 1, 1), "B")];
    assert_eq!(IssueLog::collaps_logs(rows), row(day(2024, 1, 2), "A;B"));
}

#[test]
fn a_configuration_gives_its_date_and_extractor() {
    let config = Config {
        author: String::from("alice"),
        project_name: String::from("demo"),
        repositories: vec![String::from("/tmp/repo")],
        date: String::from("2024-01-01"),
        save_file_path: String::from("out.csv"),
        regex_for_ticket_option: Some(String::from("[A-Z]+-[0-9]+")),
    };
    assert_eq!(config.min_date(), Ok(day(2024, 1, 1)));
    let extractor = config.extractor().ok().unwrap();
    assert_eq!(extractor.issue_key("see FIX-12 and FIX-13"), "FIX-12");
}

#[test]
fn a_configuration_with_a_bad_date_or_pattern_is_refused() {
    let mut config = Config {
        author: String::from("alice"),
        project_name: String::from("demo"),
        repositories: Vec::new(),
        date: String::from("yesterday"),
        save_file_path: String::from("out.csv"),
        regex_for_ticket_option: Some(String::from("(")),
    };
    assert_eq!(config.min_date(), Err(WorklogError::InvalidMinDate));
    assert_eq!(config.extractor().err(), Some(WorklogError::InvalidPattern));
    assert_eq!(config.worklog(&Vec::new()), Err(WorklogError::InvalidMinDate));
    config.date = String::from("2024-01-01");
    assert_eq!(config.worklog(&Vec::new()), Err(WorklogError::InvalidPattern));
    config.regex_for_ticket_option = None;
    assert_eq!(config.worklog(&Vec::new()), Ok(Vec::new()));
}

#[test]
fn a_record_is_made_of_its_parts() {
    let made = CommandOutput::from_parts(Ok(day(2024, 1, 1)), String::from("m"), String::from("a"));
    assert_eq!(
        made,
        Ok(CommandOutput { date: day(2024, 1, 1), message: String::from("m"), author: String::from("a") })
    );
    let made = CommandOutput::from_parts(
        Err(WorklogError::WrongDateFormat),
        String::from("m"),
        String::from("a"),
    );
    assert_eq!(made, Err(WorklogError::WrongDateFormat));
}
