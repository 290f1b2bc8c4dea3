use worklog::date::Date;
use worklog::grouping::collapse_by_date;
use worklog::grouping::collapse_runs;
use worklog::grouping::copy_log;
use worklog::grouping::drop_unkeyed;
use worklog::grouping::get_issue_logs;
use worklog::grouping::group_logs;
use worklog::grouping::same_log;
use worklog::grouping::split_by_date;
use worklog::extract::Extractor;
use worklog::models::CommandOutput;
use worklog::models::IssueLog;
use worklog::sorting::log_not_after;
use worklog::sorting::sort_logs;
use worklog::sorting::SortKey;

fn day(d: u32) -> Date {
    Date { year: 2024, month: 1, day: d }
}

fn row(d: u32, issue: &str) -> IssueLog {
    IssueLog { date: day(d), issue: String::from(issue) }
}

fn record(d: u32, message: &str) -> CommandOutput {
    CommandOutput { date: day(d), message: String::from(message), author: String::from("alice") }
}

#[test]
fn sorts_by_issue_then_date() {
    let rows = vec![row(2, "B"), row(1, "B"), row(3, "A"), row(1, "C"), row(1, "A")];
    assert_eq!(
        sort_logs(rows, SortKey::IssueThenDate),
        vec![row(1, "A"), row(3, "A"), row(1, "B"), row(2, "B"), row(1, "C")]
    );
}

#[test]
fn sorts_by_date_then_issue() {
    let rows = vec![row(2, "B"), row(1, "B"), row(3, "A"), row(1, "C"), row(1, "A")];
    assert_eq!(
        sort_logs(rows, SortKey::DateThenIssue),
        vec![row(1, "A"), row(1, "B"), row(1, "C"), row(2, "B"), row(3, "A")]
    );
}

#[test]
fn sorting_by_date_keeps_the_order_within_a_day() {
    let rows = vec![row(2, "Z"), row(1, "C"), row(2, "A"), row(1, "A"), row(1, "B")];
    assert_eq!(
        sort_logs(rows, SortKey::Date),
        vec![row(1, "C"), row(1, "A"), row(1, "B"), row(2, "Z"), row(2, "A")]
    );
}

#[test]
fn sorting_sorts_as_the_standard_sort_does() {
    let issues = ["b", "a", "", "FIX-10", "FIX-2", "fix", "a", "B"];
    let mut rows = Vec::new();
    let mut n: u32 = 0;
    for issue in issues.iter() {
        for other in issues.iter() {
            n = (n * 7 + 3) % 28;
            rows.push(row(n + 1, issue));
            rows.push(row(28 - n, other));
        }
    }
    let mut by_issue = rows.clone();
    by_issue.sort_by_key(|r| (r.issue.clone(), (r.date.year, r.date.month, r.date.day)));
    assert_eq!(sort_logs(rows.clone(), SortKey::IssueThenDate), by_issue);
    let mut by_date_issue = rows.clone();
    by_date_issue.sort_by_key(|r| ((r.date.year, r.date.month, r.date.day), r.issue.clone()));
    assert_eq!(sort_logs(rows.clone(), SortKey::DateThenIssue), by_date_issue);
    let mut by_date = rows.clone();
    by_date.sort_by_key(|r| (r.date.year, r.date.month, r.date.day));
    assert_eq!(sort_logs(rows, SortKey::Date), by_date);
}

#[test]
fn sorting_nothing_gives_nothing() {
    assert_eq!(sort_logs(Vec::new(), SortKey::Date), Vec::new());
    assert_eq!(sort_logs(vec![row(1, "A")], SortKey::IssueThenDate), vec![row(1, "A")]);
}

#[test]
fn compares_rows_by_the_key() {
    assert!(log_not_after(&row(2, "A"), &row(1, "B"), SortKey::IssueThenDate));
    assert!(!log_not_after(&row(2, "A"), &row(1, "B"), SortKey::DateThenIssue));
    assert!(!log_not_after(&row(2, "A"), &row(1, "B"), SortKey::Date));
    assert!(log_not_after(&row(1, "B"), &row(1, "A"), SortKey::Date));
    assert!(!log_not_after(&row(1, "B"), &row(1, "A"), SortKey::DateThenIssue));
    assert!(log_not_after(&row(1, "A"), &row(1, "A"), SortKey::IssueThenDate));
}

#[test]
fn tells_equal_rows() {
    assert!(same_log(&row(1, "A"), &row(1, "A")));
    assert!(!same_log(&row(1, "A"), &row(2, "A")));
    assert!(!same_log(&row(1, "A"), &row(1, "B")));
    assert_eq!(copy_log(&row(5, "K-1")), row(5, "K-1"));
}

#[test]
fn collapses_runs_of_equal_rows() {
    let rows = vec![row(1, "A"), row(1, "A"), row(1, "B"), row(1, "A"), row(2, "A"), row(2, "A")];
    assert_eq!(collapse_runs(rows), vec![row(1, "A"), row(1, "B"), row(1, "A"), row(2, "A")]);
    assert_eq!(collapse_runs(Vec::new()), Vec::new());
}

#[test]
fn rows_that_are_not_sorted_fall_into_several_groups() {
    let rows = vec![row(1, "A"), row(1, "B"), row(1, "A")];
    assert_eq!(collapse_runs(rows.clone()), rows);
}

#[test]
fn groups_by_issue_and_date() {
    let rows = vec![row(1, "B"), row(1, "A"), row(1, "B"), row(2, "A"), row(1, "A")];
    assert_eq!(group_logs(rows), vec![row(1, "A"), row(2, "A"), row(1, "B")]);
}

#[test]
fn grouping_is_idempotent() {
    let rows = vec![row(3, "B"), row(1, "A"), row(3, "B"), row(2, "A"), row(1, "A"), row(1, "")];
    let once = group_logs(rows);
    let twice = group_logs(once.clone());
    assert_eq!(twice, once);
    assert_eq!(once, vec![row(1, ""), row(1, "A"), row(2, "A"), row(3, "B")]);
}

#[test]
fn records_give_one_row_per_issue_and_day() {
    let records = vec![
        record(1, "FIX-1 | fix bug"),
        record(2, "FIX-2 | other"),
        record(1, "FIX-1 | followup"),
        record(2, "FIX-1 | again"),
    ];
    let rows = get_issue_logs(records, &Extractor::delimiter());
    assert_eq!(rows, vec![row(1, "FIX-1"), row(2, "FIX-1"), row(2, "FIX-2")]);
}

#[test]
fn rows_without_a_key_are_dropped() {
    let rows = vec![row(1, ""), row(1, "A"), row(2, ""), row(2, "B"), row(3, "")];
    assert_eq!(drop_unkeyed(rows), vec![row(1, "A"), row(2, "B")]);
}

#[test]
fn splits_into_runs_of_one_date() {
    let rows = vec![row(1, "A"), row(1, "B"), row(2, "C"), row(1, "D")];
    assert_eq!(
        split_by_date(rows),
        vec![vec![row(1, "A"), row(1, "B")], vec![row(2, "C")], vec![row(1, "D")]]
    );
    assert_eq!(split_by_date(Vec::new()), Vec::<Vec<IssueLog>>::new());
}

#[test]
fn one_row_per_day_lists_the_issues_of_the_day() {
    let rows = vec![row(1, "A"), row(1, "B"), row(1, "C"), row(2, "D")];
    assert_eq!(collapse_by_date(rows), vec![row(1, "A;B;C"), row(2, "D")]);
}

#[test]
fn rows_without_a_key_do_not_part_a_day() {
    let rows = vec![row(1, "A"), row(1, ""), row(1, "B"), row(2, ""), row(3, "C")];
    assert_eq!(collapse_by_date(rows), vec![row(1, "A;B"), row(3, "C")]);
    assert_eq!(collapse_by_date(vec![row(1, "")]), Vec::new());
    assert_eq!(collapse_by_date(Vec::new()), Vec::new());
}
