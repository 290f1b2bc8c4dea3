use worklog::date::Date;
use worklog::error::WorklogError;
use worklog::extract::delimiter_issue;
use worklog::extract::extract_issue_from_msg;
use worklog::extract::key_of_match;
use worklog::extract::Extractor;
use worklog::models::CommandOutput;

fn record(message: &str) -> CommandOutput {
    CommandOutput {
        date: Date { year: 2024, month: 1, day: 2 },
        message: String::from(message),
        author: String::from("alice"),
    }
}

#[test]
fn the_key_stands_before_the_first_pipe() {
    assert_eq!(delimiter_issue("FIX-1 | fix bug"), "FIX-1");
    assert_eq!(delimiter_issue("FIX-1|fix|more"), "FIX-1");
    assert_eq!(delimiter_issue("  FIX 1\t| x"), "FIX 1");
    assert_eq!(delimiter_issue("| nothing before"), "");
    assert_eq!(delimiter_issue("\u{2003}K-2\u{a0}| wide spaces"), "K-2");
}

#[test]
fn a_message_without_pipe_is_the_key() {
    assert_eq!(delimiter_issue("  just a message "), "just a message");
    assert_eq!(delimiter_issue(""), "");
    assert_eq!(delimiter_issue("   "), "");
}

#[test]
fn the_delimiter_extractor_uses_the_convention() {
    let extractor = Extractor::delimiter();
    assert_eq!(extractor.issue_key("FIX-2 | other"), "FIX-2");
    let extractor = Extractor::new(&None).ok().unwrap();
    assert_eq!(extractor.issue_key("FIX-3 | other"), "FIX-3");
}

#[test]
fn the_key_is_the_first_match() {
    let extractor = Extractor::with_pattern("[A-Z]+-[0-9]+").ok().unwrap();
    assert_eq!(extractor.issue_key("work on ABC-12 and DEF-3"), "ABC-12");
    assert_eq!(extractor.issue_key("ABC-12"), "ABC-12");
    assert_eq!(extractor.issue_key("xxABC-7yy | ABC-8"), "ABC-7");
}

#[test]
fn no_match_gives_the_empty_key() {
    let extractor = Extractor::with_pattern("[A-Z]+-[0-9]+").ok().unwrap();
    assert_eq!(extractor.issue_key("no ticket here"), "");
    assert_eq!(extractor.issue_key(""), "");
}

#[test]
fn a_match_may_be_empty() {
    let extractor = Extractor::with_pattern("x*").ok().unwrap();
    assert_eq!(extractor.issue_key("abc"), "");
    assert_eq!(extractor.issue_key("xxabc"), "xx");
}

#[test]
fn a_pattern_that_does_not_compile_is_refused() {
    assert_eq!(Extractor::with_pattern("foo(bar").err(), Some(WorklogError::InvalidPattern));
    assert_eq!(Extractor::with_pattern("[").err(), Some(WorklogError::InvalidPattern));
    assert_eq!(
        Extractor::new(&Some(String::from("*"))).err(),
        Some(WorklogError::InvalidPattern)
    );
    assert!(Extractor::new(&Some(String::from("a*"))).is_ok());
}

#[test]
fn the_key_of_a_search() {
    assert_eq!(key_of_match(Some(String::from("FIX-1"))), "FIX-1");
    assert_eq!(key_of_match(Some(String::new())), "");
    assert_eq!(key_of_match(None), "");
}

#[test]
fn a_record_gives_its_key_and_its_date() {
    let extractor = Extractor::delimiter();
    let (issue, date) = extract_issue_from_msg(&record("FIX-9 | something"), &extractor);
    assert_eq!(issue, "FIX-9");
    assert_eq!(date, Date { year: 2024, month: 1, day: 2 });
    let extractor = Extractor::with_pattern("#[0-9]+").ok().unwrap();
    let (issue, date) = extract_issue_from_msg(&record("closes #42, #43"), &extractor);
    assert_eq!(issue, "#42");
    assert_eq!(date, Date { year: 2024, month: 1, day: 2 });
}
