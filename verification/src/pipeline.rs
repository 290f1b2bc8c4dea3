//! The pipeline: history text to records, records to the rows of one
//! repository, the rows of all repositories to the worklog.

use crate::date::date_from_text;
use crate::date::Date;
use crate::error::WorklogError;
use crate::extract::optional_text;
use crate::extract::usable;
use crate::extract::Extractor;
use crate::grouping::collapse_by_date;
use crate::grouping::collapse_runs;
use crate::grouping::collapsed_by_date;
use crate::grouping::get_issue_logs;
use crate::grouping::grouped;
use crate::grouping::projected;
use crate::grouping::run_heads;
use crate::models::entries;
use crate::models::parse_line;
use crate::models::record_result;
use crate::models::records;
use crate::models::CommandOutput;
use crate::models::Config;
use crate::models::Entry;
use crate::models::IssueLog;
use crate::models::Record;
use crate::grouping::days_increase;
use crate::grouping::keyed;
use crate::grouping::lemma_collapsed_runs_days_increase;
use crate::grouping::lemma_keyed_sorted;
use crate::grouping::lemma_run_heads_contains;
use crate::grouping::lemma_run_heads_no_repeats;
use crate::grouping::lemma_run_heads_sorted;
use crate::grouping::lemma_sorted_no_repeats_distinct;
use crate::sorting::is_sorted;
use crate::sorting::lemma_sorted_by_date;
use crate::sorting::lemma_stable_sort_contains;
use crate::sorting::lemma_stable_sort_of_sorted;
use crate::sorting::lemma_stable_sort_sorted;
use crate::sorting::sort_logs;
use crate::sorting::stable_sort;
use crate::sorting::SortKey;
use crate::text::chars_of;
use crate::text::line_spans;
use crate::text::nonempty_lines;
use vstd::prelude::*;
use vstd::seq_lib::to_multiset_contains;

verus! {

/// The records of `min_date` and later, in order.
pub open spec fn since(logs: Seq<Record>, min_date: Date) -> Seq<Record> {
    logs.filter(|record: Record| min_date.le(record.date))
}

/// The records of `author`, in order.
pub open spec fn by_author(logs: Seq<Record>, author: Seq<char>) -> Seq<Record> {
    logs.filter(|record: Record| record.author == author)
}

/// The records of `author` of `min_date` and later, in order.
pub open spec fn filtered(logs: Seq<Record>, author: Seq<char>, min_date: Date) -> Seq<Record> {
    by_author(since(logs, min_date), author)
}

/// The records that the lines stand for, or the error of the first line that
/// stands for none.
pub open spec fn parse_lines(lines: Seq<Seq<char>>) -> Result<Seq<Record>, WorklogError>
    decreases lines.len(),
{
    if lines.len() == 0 {
        Ok(Seq::empty())
    } else {
        match parse_lines(lines.drop_last()) {
            Err(e) => Err(e),
            Ok(front) => match parse_line(lines.last()) {
                Err(e) => Err(e),
                Ok(record) => Ok(front.push(record)),
            },
        }
    }
}

/// The records of a history: one for each line that is not empty.
pub open spec fn parse_history(text: Seq<char>) -> Result<Seq<Record>, WorklogError> {
    parse_lines(nonempty_lines(text))
}

/// The rows of one repository: its records of the author since the minimum
/// date, one row per issue and day, ordered by date, rows of one day by
/// issue.
pub open spec fn project_entries(
    history: Seq<char>,
    author: Seq<char>,
    min_date: Date,
    pattern: Option<Seq<char>>,
) -> Result<Seq<Entry>, WorklogError> {
    match parse_history(history) {
        Err(e) => Err(e),
        Ok(logs) => Ok(
            stable_sort(grouped(projected(filtered(logs, author, min_date), pattern)), SortKey::Date),
        ),
    }
}

/// The rows of all repositories one after the other, in the order of the
/// repositories, or the error of the first history that has one.
pub open spec fn all_entries(
    histories: Seq<Seq<char>>,
    author: Seq<char>,
    min_date: Date,
    pattern: Option<Seq<char>>,
) -> Result<Seq<Entry>, WorklogError>
    decreases histories.len(),
{
    if histories.len() == 0 {
        Ok(Seq::empty())
    } else {
        match all_entries(histories.drop_last(), author, min_date, pattern) {
            Err(e) => Err(e),
            Ok(front) => match project_entries(histories.last(), author, min_date, pattern) {
                Err(e) => Err(e),
                Ok(rows) => Ok(front + rows),
            },
        }
    }
}

/// The rows of several repositories as one: ordered by date and issue, each
/// row once, then ordered by date alone.
pub open spec fn merged(all: Seq<Entry>) -> Seq<Entry> {
    stable_sort(run_heads(stable_sort(all, SortKey::DateThenIssue)), SortKey::Date)
}

/// The worklog of several histories: the merged rows of all repositories,
/// one row per day.
pub open spec fn worklog_of(
    histories: Seq<Seq<char>>,
    author: Seq<char>,
    min_date: Date,
    pattern: Option<Seq<char>>,
) -> Result<Seq<Entry>, WorklogError> {
    match all_entries(histories, author, min_date, pattern) {
        Err(e) => Err(e),
        Ok(all) => Ok(collapsed_by_date(merged(all))),
    }
}

/// The worklog that a configuration asks for, given the history of each of
/// its repositories. The minimum date is looked at first, then the pattern,
/// then the histories.
pub open spec fn configured_worklog(
    author: Seq<char>,
    date: Seq<char>,
    pattern: Option<Seq<char>>,
    histories: Seq<Seq<char>>,
) -> Result<Seq<Entry>, WorklogError> {
    match date_from_text(date) {
        None => Err(WorklogError::InvalidMinDate),
        Some(min_date) => if usable(pattern) {
            worklog_of(histories, author, min_date, pattern)
        } else {
            Err(WorklogError::InvalidPattern)
        },
    }
}

/// The view of a result that holds records.
pub open spec fn records_result(r: Result<Vec<CommandOutput>, WorklogError>) -> Result<
    Seq<Record>,
    WorklogError,
> {
    match r {
        Ok(logs) => Ok(records(logs@)),
        Err(e) => Err(e),
    }
}

/// The view of a result that holds rows.
pub open spec fn entries_result(r: Result<Vec<IssueLog>, WorklogError>) -> Result<
    Seq<Entry>,
    WorklogError,
> {
    match r {
        Ok(logs) => Ok(entries(logs@)),
        Err(e) => Err(e),
    }
}

/// An error among the first lines is the error of all the lines.
pub proof fn lemma_parse_lines_error(lines: Seq<Seq<char>>, n: int)
    requires
        0 <= n <= lines.len(),
        parse_lines(lines.take(n)) is Err,
    ensures
        parse_lines(lines) == parse_lines(lines.take(n)),
    decreases lines.len(),
{
    if n == lines.len() {
        assert(lines.take(n) =~= lines);
    } else {
        assert(lines.drop_last().take(n) =~= lines.take(n));
        lemma_parse_lines_error(lines.drop_last(), n);
    }
}

/// An error among the first histories is the error of all the histories.
pub proof fn lemma_all_entries_error(
    histories: Seq<Seq<char>>,
    author: Seq<char>,
    min_date: Date,
    pattern: Option<Seq<char>>,
    n: int,
)
    requires
        0 <= n <= histories.len(),
        all_entries(histories.take(n), author, min_date, pattern) is Err,
    ensures
        all_entries(histories, author, min_date, pattern) == all_entries(
            histories.take(n),
            author,
            min_date,
            pattern,
        ),
    decreases histories.len(),
{
    if n == histories.len() {
        assert(histories.take(n) =~= histories);
    } else {
        assert(histories.drop_last().take(n) =~= histories.take(n));
        lemma_all_entries_error(histories.drop_last(), author, min_date, pattern, n);
    }
}

/// The two filters commute: to keep the author's records and then those
/// since the minimum date is to keep those since the minimum date and then
/// the author's, and either is to keep the records that pass both tests.
pub proof fn lemma_filters_commute(logs: Seq<Record>, author: Seq<char>, min_date: Date)
    ensures
        by_author(since(logs, min_date), author) == since(by_author(logs, author), min_date),
        filtered(logs, author, min_date) == logs.filter(
            |record: Record| min_date.le(record.date) && record.author == author,
        ),
    decreases logs.len(),
{
    reveal(Seq::filter);
    if logs.len() > 0 {
        let front = logs.drop_last();
        let x = logs.last();
        lemma_filters_commute(front, author, min_date);
        if min_date.le(x.date) {
            assert(since(front, min_date).push(x).drop_last() =~= since(front, min_date));
        }
        if x.author == author {
            assert(by_author(front, author).push(x).drop_last() =~= by_author(front, author));
        }
    }
}

/// What was merged is ordered by date and issue, and the last sort by date
/// alone moves nothing.
pub proof fn lemma_merged_sorted(all: Seq<Entry>)
    ensures
        merged(all) == run_heads(stable_sort(all, SortKey::DateThenIssue)),
        is_sorted(merged(all), SortKey::DateThenIssue),
        is_sorted(merged(all), SortKey::Date),
{
    let key = SortKey::DateThenIssue;
    let heads = run_heads(stable_sort(all, key));
    lemma_stable_sort_sorted(all, key);
    lemma_run_heads_sorted(stable_sort(all, key), key);
    lemma_sorted_by_date(heads);
    lemma_stable_sort_of_sorted(heads, SortKey::Date);
}

/// What was merged holds no row twice, and holds the rows that the
/// repositories gave, and no others.
pub proof fn lemma_merged_distinct(all: Seq<Entry>)
    ensures
        merged(all).no_duplicates(),
        forall|e: Entry| merged(all).contains(e) <==> all.contains(e),
{
    let key = SortKey::DateThenIssue;
    let sorted = stable_sort(all, key);
    lemma_merged_sorted(all);
    lemma_run_heads_no_repeats(sorted);
    lemma_sorted_no_repeats_distinct(merged(all), key);
    assert forall|e: Entry| merged(all).contains(e) <==> all.contains(e) by {
        lemma_run_heads_contains(sorted, e);
        lemma_stable_sort_contains(all, key, e);
    }
}

/// The worklog has one row per day, and each row is of a later day than the
/// one before it.
pub proof fn lemma_worklog_days_increase(all: Seq<Entry>)
    ensures
        days_increase(collapsed_by_date(merged(all))),
{
    lemma_merged_sorted(all);
    lemma_keyed_sorted(merged(all), SortKey::Date);
    lemma_collapsed_runs_days_increase(keyed(merged(all)));
}

/// A row that two repositories both give stands in the merged rows exactly
/// once.
pub proof fn lemma_merged_once(first: Seq<Entry>, second: Seq<Entry>, e: Entry)
    requires
        first.contains(e),
        second.contains(e),
    ensures
        merged(first + second).to_multiset().count(e) == 1,
{
    let all = first + second;
    let i = choose|i: int| 0 <= i < first.len() && first[i] == e;
    assert(all[i] == e);
    assert(all.contains(e));
    lemma_merged_distinct(all);
    merged(all).lemma_multiset_has_no_duplicates();
    to_multiset_contains(merged(all), e);
}

/// The records of `date` and later, in order.
pub fn filter_by_date(command_logs: Vec<CommandOutput>, date: &Date) -> (r: Vec<CommandOutput>)
    ensures
        records(r@) == since(records(command_logs@), *date),
{
    let ghost input = records(command_logs@);
    let mut out: Vec<CommandOutput> = Vec::new();
    proof {
        assert(input.take(0) =~= Seq::<Record>::empty());
        assert(records(out@) =~= since(input.take(0), *date));
    }
    for log in it: command_logs
        invariant
            records(it.seq()) == input,
            records(out@) == since(input.take(it.index() as int), *date),
    {
        let ghost index = it.index() as int;
        let ghost done = records(out@);
        proof {
            assert(index < it.seq().len());
            assert(input.len() == it.seq().len());
            assert(log@ == input[index]);
            assert(input.take(index + 1).drop_last() =~= input.take(index));
            reveal(Seq::filter);
        }
        if date.not_after(&log.date) {
            out.push(log);
            proof {
                assert(records(out@) =~= done.push(input[index]));
            }
        }
    }
    proof {
        assert(input.take(input.len() as int) =~= input);
    }
    out
}

/// The records of `user_name`, in order.
pub fn filter_by_author(command_logs: Vec<CommandOutput>, user_name: &String) -> (r: Vec<
    CommandOutput,
>)
    ensures
        records(r@) == by_author(records(command_logs@), user_name@),
{
    let ghost input = records(command_logs@);
    let mut out: Vec<CommandOutput> = Vec::new();
    proof {
        assert(input.take(0) =~= Seq::<Record>::empty());
        assert(records(out@) =~= by_author(input.take(0), user_name@));
    }
    for log in it: command_logs
        invariant
            records(it.seq()) == input,
            records(out@) == by_author(input.take(it.index() as int), user_name@),
    {
        let ghost index = it.index() as int;
        let ghost done = records(out@);
        proof {
            assert(index < it.seq().len());
            assert(input.len() == it.seq().len());
            assert(log@ == input[index]);
            assert(input.take(index + 1).drop_last() =~= input.take(index));
            reveal(Seq::filter);
        }
        if log.author == *user_name {
            out.push(log);
            proof {
                assert(records(out@) =~= done.push(input[index]));
            }
        }
    }
    proof {
        assert(input.take(input.len() as int) =~= input);
    }
    out
}

/// The records of `user_name` of `date` and later, in order.
pub fn filter_logs(command_logs: Vec<CommandOutput>, user_name: &String, date: &Date) -> (r: Vec<
    CommandOutput,
>)
    ensures
        records(r@) == filtered(records(command_logs@), user_name@, *date),
{
    filter_by_author(filter_by_date(command_logs, date), user_name)
}

/// Parses the output of the history source: one record for each line that
/// is not empty.
pub fn parse_git_logs(output: &str) -> (r: Result<Vec<CommandOutput>, WorklogError>)
    ensures
        records_result(r) == parse_history(output@),
{
    let chars = chars_of(output);
    let spans = line_spans(&chars);
    let ghost lines = nonempty_lines(output@);
    let mut out: Vec<CommandOutput> = Vec::new();
    let mut i: usize = 0;
    proof {
        assert(lines.take(0) =~= Seq::<Seq<char>>::empty());
        assert(records(out@) =~= Seq::<Record>::empty());
    }
    while i < spans.len()
        invariant
            i <= spans.len(),
            chars@ == output@,
            lines == nonempty_lines(output@),
            spans@.len() == lines.len(),
            forall|k: int|
                0 <= k < spans@.len() ==> {
                    &&& (#[trigger] spans@[k]).0 <= spans@[k].1 <= chars.len()
                    &&& chars@.subrange(spans@[k].0 as int, spans@[k].1 as int) == lines[k]
                },
            parse_lines(lines.take(i as int)) == Ok::<Seq<Record>, WorklogError>(records(out@)),
        decreases spans.len() - i,
    {
        let ghost done = records(out@);
        let span = spans[i];
        proof {
            assert(lines.take(i + 1).drop_last() =~= lines.take(i as int));
            assert(lines.take(i + 1).last() == lines[i as int]);
            assert(span == spans@[i as int]);
            assert(chars@.subrange(span.0 as int, span.1 as int) == lines[i as int]);
        }
        let parsed = CommandOutput::from_chars(&chars, span.0, span.1);
        proof {
            assert(record_result(parsed) == parse_line(lines[i as int]));
        }
        match parsed {
            Ok(log) => {
                let ghost record = log@;
                out.push(log);
                proof {
                    assert(records(out@) =~= done.push(record));
                }
            },
            Err(e) => {
                proof {
                    assert(parse_lines(lines.take(i + 1)) == Err::<Seq<Record>, WorklogError>(e));
                    lemma_parse_lines_error(lines, i + 1);
                }
                return Err(e);
            },
        }
        i += 1;
    }
    proof {
        assert(lines.take(lines.len() as int) =~= lines);
    }
    Ok(out)
}

/// The rows of one repository, from the output of its history source.
pub fn get_logs_from_project(
    history: &str,
    user: &String,
    date: &Date,
    extractor: &Extractor,
) -> (r: Result<Vec<IssueLog>, WorklogError>)
    ensures
        entries_result(r) == project_entries(history@, user@, *date, extractor.pattern()),
{
    match parse_git_logs(history) {
        Err(e) => Err(e),
        Ok(outputs) => {
            let logs = filter_logs(outputs, user, date);
            let issue_logs = get_issue_logs(logs, extractor);
            Ok(sort_logs(issue_logs, SortKey::Date))
        },
    }
}

/// Merges the rows of several repositories: orders them by date and issue,
/// keeps the first of each run of equal rows, and orders what is left by
/// date.
pub fn merge_logs(project_logs: Vec<IssueLog>) -> (r: Vec<IssueLog>)
    ensures
        entries(r@) == merged(entries(project_logs@)),
{
    let sorted = sort_logs(project_logs, SortKey::DateThenIssue);
    let distinct = collapse_runs(sorted);
    sort_logs(distinct, SortKey::Date)
}

/// The worklog of `user` since `date`, from the output of the history source
/// of each repository.
pub fn build_worklog(
    histories: &Vec<String>,
    user: &String,
    date: &Date,
    extractor: &Extractor,
) -> (r: Result<Vec<IssueLog>, WorklogError>)
    ensures
        entries_result(r) == worklog_of(histories.deep_view(), user@, *date, extractor.pattern()),
{
    let ghost texts = histories.deep_view();
    let ghost pattern = extractor.pattern();
    let mut project_logs: Vec<IssueLog> = Vec::new();
    let mut i: usize = 0;
    proof {
        assert(entries(project_logs@) =~= Seq::<Entry>::empty());
    }
    while i < histories.len()
        invariant
            i <= histories.len(),
            texts == histories.deep_view(),
            pattern == extractor.pattern(),
            all_entries(texts.take(i as int), user@, *date, pattern) == Ok::<
                Seq<Entry>,
                WorklogError,
            >(entries(project_logs@)),
        decreases histories.len() - i,
    {
        let ghost done = entries(project_logs@);
        proof {
            assert(texts.take(i + 1).drop_last() =~= texts.take(i as int));
            assert(texts.take(i + 1).last() == histories[i as int]@);
        }
        match get_logs_from_project(histories[i].as_str(), user, date, extractor) {
            Ok(mut logs) => {
                let ghost rows = entries(logs@);
                project_logs.append(&mut logs);
                proof {
                    assert(entries(project_logs@) =~= done + rows);
                }
            },
            Err(e) => {
                proof {
                    lemma_all_entries_error(texts, user@, *date, pattern, i + 1);
                }
                return Err(e);
            },
        }
        i += 1;
    }
    proof {
        assert(texts.take(texts.len() as int) =~= texts);
    }
    Ok(collapse_by_date(merge_logs(project_logs)))
}

impl Config {
    /// The minimum date of the configuration.
    pub fn min_date(&self) -> (r: Result<Date, WorklogError>)
        ensures
            r == Date::or_error(date_from_text(self.date@), WorklogError::InvalidMinDate),
    {
        Date::parse_min_date(self.date.as_str())
    }

    /// The extractor that the configuration asks for.
    pub fn extractor(&self) -> (r: Result<Extractor, WorklogError>)
        ensures
            usable(optional_text(self.regex_for_ticket_option)) ==> r is Ok && r->Ok_0.pattern()
                == optional_text(self.regex_for_ticket_option),
            !usable(optional_text(self.regex_for_ticket_option)) ==> r is Err && r->Err_0
                == WorklogError::InvalidPattern,
    {
        Extractor::new(&self.regex_for_ticket_option)
    }

    /// The worklog that the configuration asks for, from the output of the
    /// history source of each of its repositories, in their order.
    pub fn worklog(&self, histories: &Vec<String>) -> (r: Result<Vec<IssueLog>, WorklogError>)
        ensures
            entries_result(r) == configured_worklog(
                self.author@,
                self.date@,
                optional_text(self.regex_for_ticket_option),
                histories.deep_view(),
            ),
    {
        let date = match self.min_date() {
            Ok(date) => date,
            Err(e) => {
                return Err(e);
            },
        };
        let extractor = match self.extractor() {
            Ok(extractor) => extractor,
            Err(e) => {
                return Err(e);
            },
        };
        build_worklog(histories, &self.author, &date, &extractor)
    }
}

} // verus!
