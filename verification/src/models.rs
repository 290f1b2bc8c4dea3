//! The records of a run: a parsed history line, an aggregated output row and
//! the configuration.

use crate::date::date_in_format;
use crate::date::line_date_format;
use crate::date::Date;
use crate::error::WorklogError;
use crate::text::chars_of;
use crate::text::find_char;
use crate::text::index_of;
use crate::text::join;
use crate::text::join_strings;
use crate::text::lemma_index_of_is;
use crate::text::lemma_join_concat;
use crate::text::text_of;
use crate::text::unquote;
use crate::text::unquote_range;
use vstd::prelude::*;

verus! {

/// What a [`CommandOutput`] stands for: one commit's date, subject and author.
pub struct Record {
    pub date: Date,
    pub message: Seq<char>,
    pub author: Seq<char>,
}

/// What an [`IssueLog`] stands for: an issue key and the day it was worked on.
pub struct Entry {
    pub date: Date,
    pub issue: Seq<char>,
}

/// One parsed line of history.
#[derive(Clone, Debug, PartialEq, Eq)]
pub struct CommandOutput {
    pub date: Date,
    pub message: String,
    pub author: String,
}

/// One row of the worklog.
#[derive(Clone, Debug, PartialEq, Eq)]
pub struct IssueLog {
    pub date: Date,
    pub issue: String,
}

/// The settings of a run, as the configuration file gives them.
#[derive(Clone, Debug, PartialEq, Eq)]
pub struct Config {
    pub author: String,
    pub project_name: String,
    pub repositories: Vec<String>,
    pub date: String,
    pub save_file_path: String,
    pub regex_for_ticket_option: Option<String>,
}

impl View for CommandOutput {
    type V = Record;

    open spec fn view(&self) -> Record {
        Record { date: self.date, message: self.message@, author: self.author@ }
    }
}

impl View for IssueLog {
    type V = Entry;

    open spec fn view(&self) -> Entry {
        Entry { date: self.date, issue: self.issue@ }
    }
}

/// What each of `logs` stands for, in order.
pub open spec fn records(logs: Seq<CommandOutput>) -> Seq<Record> {
    logs.map_values(|log: CommandOutput| log@)
}

/// What each of `logs` stands for, in order.
pub open spec fn entries(logs: Seq<IssueLog>) -> Seq<Entry> {
    logs.map_values(|log: IssueLog| log@)
}

/// The three fields of a history line without its quotes: the text before
/// the first comma, the text between the first and the second, and all that
/// follows the second. A line without a comma has no message, one with a
/// single comma no author.
pub open spec fn split_fields(body: Seq<char>) -> Result<
    (Seq<char>, Seq<char>, Seq<char>),
    WorklogError,
> {
    let first = index_of(body, ',');
    if first >= body.len() {
        Err(WorklogError::NoMessage)
    } else {
        let rest = body.skip(first + 1);
        let second = index_of(rest, ',');
        if second >= rest.len() {
            Err(WorklogError::NoAuthor)
        } else {
            Ok((body.take(first), rest.take(second), rest.skip(second + 1)))
        }
    }
}

/// The three fields of a history line. A quote that wraps the line is left
/// out.
pub open spec fn split_line(line: Seq<char>) -> Result<
    (Seq<char>, Seq<char>, Seq<char>),
    WorklogError,
> {
    split_fields(unquote(line))
}

/// The record that three fields make: the date that the date text stands
/// for, the message and the author; or the error of a date text that stands
/// for no date.
pub open spec fn record_of_fields(
    date_text: Seq<char>,
    message: Seq<char>,
    author: Seq<char>,
) -> Result<Record, WorklogError> {
    match date_in_format(date_text, line_date_format()) {
        Some(date) => Ok(Record { date, message, author }),
        None => Err(WorklogError::WrongDateFormat),
    }
}

/// The record that a history line stands for, or the reason why it stands
/// for none. A missing field comes before a date text that stands for no
/// date.
pub open spec fn parse_line(line: Seq<char>) -> Result<Record, WorklogError> {
    match split_line(line) {
        Err(e) => Err(e),
        Ok((date_text, message, author)) => record_of_fields(date_text, message, author),
    }
}

/// A history line as the history source writes it: the three fields with
/// commas between them and a quote at either end.
pub open spec fn quoted_line(date_text: Seq<char>, message: Seq<char>, author: Seq<char>) -> Seq<
    char,
> {
    seq!['\''] + date_text + seq![','] + message + seq![','] + author + seq!['\'']
}

/// The character that stands between the issue keys of one day.
pub open spec fn issue_separator() -> Seq<char> {
    seq![';']
}

/// The issue keys of `run`, in order.
pub open spec fn issues_of(run: Seq<Entry>) -> Seq<Seq<char>> {
    run.map_values(|e: Entry| e.issue)
}

/// The one row that the rows of `run` collapse to: it has the date of the
/// first and all their issue keys, in order, with a semicolon between each
/// two.
pub open spec fn collapsed(run: Seq<Entry>) -> Entry {
    Entry { date: run[0].date, issue: join(issues_of(run), issue_separator()) }
}

/// The view of a parse result.
pub open spec fn record_result(r: Result<CommandOutput, WorklogError>) -> Result<
    Record,
    WorklogError,
> {
    match r {
        Ok(record) => Ok(record@),
        Err(e) => Err(e),
    }
}

/// A line written without quotes: the three fields with commas between
/// them.
pub open spec fn plain_line(date_text: Seq<char>, message: Seq<char>, author: Seq<char>) -> Seq<
    char,
> {
    date_text + seq![','] + message + seq![','] + author
}

/// Fields that are written out with commas between them split into the same
/// fields again, where neither the date text nor the message holds a comma.
pub proof fn lemma_split_plain_line(date_text: Seq<char>, message: Seq<char>, author: Seq<char>)
    requires
        !date_text.contains(','),
        !message.contains(','),
    ensures
        split_fields(plain_line(date_text, message, author)) == Ok::<
            (Seq<char>, Seq<char>, Seq<char>),
            WorklogError,
        >((date_text, message, author)),
{
    let body = plain_line(date_text, message, author);
    let first = date_text.len() as int;
    assert forall|k: int| 0 <= k < first implies body[k] != ',' by {
        assert(body[k] == date_text[k]);
        assert(date_text.contains(date_text[k]));
    }
    assert(body[first] == ',');
    lemma_index_of_is(body, ',', first);
    let rest = body.skip(first + 1);
    let second = message.len() as int;
    assert(rest =~= message + seq![','] + author);
    assert forall|k: int| 0 <= k < second implies rest[k] != ',' by {
        assert(rest[k] == message[k]);
        assert(message.contains(message[k]));
    }
    assert(rest[second] == ',');
    lemma_index_of_is(rest, ',', second);
    assert(body.take(first) =~= date_text);
    assert(rest.take(second) =~= message);
    assert(rest.skip(second + 1) =~= author);
}

/// Parsing gives back what was written: a line that the history source
/// writes for a date text, a message and an author, in quotes, parses to the
/// date that the date text stands for, to that message and to that author,
/// where neither the date text nor the message holds a comma.
pub proof fn lemma_parse_quoted_line(date_text: Seq<char>, message: Seq<char>, author: Seq<char>)
    requires
        !date_text.contains(','),
        !message.contains(','),
    ensures
        split_line(quoted_line(date_text, message, author)) == Ok::<
            (Seq<char>, Seq<char>, Seq<char>),
            WorklogError,
        >((date_text, message, author)),
        parse_line(quoted_line(date_text, message, author)) == record_of_fields(
            date_text,
            message,
            author,
        ),
{
    let line = quoted_line(date_text, message, author);
    let body = plain_line(date_text, message, author);
    assert(line.drop_first() =~= body + seq!['\'']);
    assert(line.drop_first().drop_last() =~= body);
    assert(unquote(line) == body);
    lemma_split_plain_line(date_text, message, author);
}

/// The same holds of a line without quotes, where the date text does not
/// begin with a quote and the author does not end with one.
pub proof fn lemma_parse_plain_line(date_text: Seq<char>, message: Seq<char>, author: Seq<char>)
    requires
        !date_text.contains(','),
        !message.contains(','),
        date_text.len() > 0 ==> date_text[0] != '\'',
        author.len() > 0 ==> author.last() != '\'',
    ensures
        split_line(plain_line(date_text, message, author)) == Ok::<
            (Seq<char>, Seq<char>, Seq<char>),
            WorklogError,
        >((date_text, message, author)),
        parse_line(plain_line(date_text, message, author)) == record_of_fields(
            date_text,
            message,
            author,
        ),
{
    let body = plain_line(date_text, message, author);
    assert(body[0] != '\'');
    assert(body.last() != '\'');
    lemma_split_plain_line(date_text, message, author);
}

/// Collapsing is associative in the order of the issue keys: the issue keys
/// of two runs that follow each other collapse to the collapsed keys of the
/// first, a semicolon, and the collapsed keys of the second.
pub proof fn lemma_collapsed_concat(first: Seq<Entry>, second: Seq<Entry>)
    requires
        first.len() > 0,
        second.len() > 0,
    ensures
        collapsed(first + second).date == first[0].date,
        collapsed(first + second).issue == collapsed(first).issue + issue_separator() + collapsed(
            second,
        ).issue,
{
    assert(issues_of(first + second) =~= issues_of(first) + issues_of(second));
    lemma_join_concat(issues_of(first), issues_of(second), issue_separator());
}

impl CommandOutput {
    /// Parses one line of history, `'<date>,<message>,<author>'`.
    pub fn new(output: String) -> (r: Result<CommandOutput, WorklogError>)
        ensures
            record_result(r) == parse_line(output@),
    {
        let chars = chars_of(output.as_str());
        let r = CommandOutput::from_chars(&chars, 0, chars.len());
        proof {
            assert(chars@.subrange(0, chars.len() as int) =~= output@);
        }
        r
    }

    /// Parses the line of history that `chars[start..end]` holds.
    pub fn from_chars(chars: &Vec<char>, start: usize, end: usize) -> (r: Result<
        CommandOutput,
        WorklogError,
    >)
        requires
            start <= end <= chars.len(),
        ensures
            record_result(r) == parse_line(chars@.subrange(start as int, end as int)),
    {
        let (from, to) = unquote_range(chars, start, end);
        match find_commas(chars, from, to) {
            Err(e) => Err(e),
            Ok((first, second)) => {
                let date_text = text_of(chars, from, first);
                let message = text_of(chars, first + 1, second);
                let author = text_of(chars, second + 1, to);
                CommandOutput::from_parts(
                    Date::parse_line_date(date_text.as_str()),
                    message,
                    author,
                )
            },
        }
    }

    /// The record of a date that was read, a message and an author, or the
    /// error of reading the date.
    pub fn from_parts(date: Result<Date, WorklogError>, message: String, author: String) -> (r:
        Result<CommandOutput, WorklogError>)
        ensures
            record_result(r) == match date {
                Ok(date) => Ok::<Record, WorklogError>(
                    Record { date, message: message@, author: author@ },
                ),
                Err(e) => Err::<Record, WorklogError>(e),
            },
    {
        match date {
            Ok(date) => Ok(CommandOutput { date, message, author }),
            Err(e) => Err(e),
        }
    }
}

/// The positions of the first two commas of `chars[from..to]`, which part
/// its three fields.
pub fn find_commas(chars: &Vec<char>, from: usize, to: usize) -> (r: Result<
    (usize, usize),
    WorklogError,
>)
    requires
        from <= to <= chars.len(),
    ensures
        match r {
            Ok((first, second)) => {
                &&& from <= first < second < to
                &&& split_fields(chars@.subrange(from as int, to as int)) == Ok::<
                    (Seq<char>, Seq<char>, Seq<char>),
                    WorklogError,
                >(
                    (
                        chars@.subrange(from as int, first as int),
                        chars@.subrange(first + 1, second as int),
                        chars@.subrange(second + 1, to as int),
                    ),
                )
            },
            Err(e) => split_fields(chars@.subrange(from as int, to as int)) == Err::<
                (Seq<char>, Seq<char>, Seq<char>),
                WorklogError,
            >(e),
        },
{
    let ghost body = chars@.subrange(from as int, to as int);
    let first = find_char(chars, from, to, ',');
    if first >= to {
        return Err(WorklogError::NoMessage);
    }
    let ghost rest = chars@.subrange(first + 1, to as int);
    proof {
        assert(body.skip(first - from + 1) =~= rest);
    }
    let second = find_char(chars, first + 1, to, ',');
    if second >= to {
        return Err(WorklogError::NoAuthor);
    }
    proof {
        assert(body.take(first - from) =~= chars@.subrange(from as int, first as int));
        assert(rest.take(second - first - 1) =~= chars@.subrange(first + 1, second as int));
        assert(rest.skip(second - first) =~= chars@.subrange(second + 1, to as int));
    }
    Ok((first, second))
}

impl IssueLog {
    /// The row for an issue key and its day.
    pub fn new(key: (String, Date)) -> (r: IssueLog)
        ensures
            r@ == (Entry { date: key.1, issue: key.0@ }),
    {
        IssueLog { issue: key.0, date: key.1 }
    }

    /// Collapses the rows of one day into one row.
    pub fn collaps_logs(issues: Vec<IssueLog>) -> (r: IssueLog)
        requires
            issues.len() > 0,
        ensures
            r@ == collapsed(entries(issues@)),
    {
        let date = issues[0].date;
        let ghost run = entries(issues@);
        let mut parts: Vec<String> = Vec::new();
        for log in it: issues
            invariant
                entries(it.seq()) == run,
                parts.deep_view() == issues_of(run.take(it.index() as int)),
        {
            let ghost index = it.index() as int;
            let ghost before = parts.deep_view();
            proof {
                assert(index < it.seq().len());
                assert(run.len() == it.seq().len());
                assert(log@ == run[index]);
                assert(before.len() == index);
            }
            parts.push(log.issue);
            proof {
                let after = issues_of(run.take(index + 1));
                assert(parts.deep_view().len() == after.len());
                assert forall|k: int| 0 <= k < after.len() implies parts.deep_view()[k]
                    == after[k] by {
                    if k < index {
                        assert(parts.deep_view()[k] == before[k]);
                        assert(run.take(index)[k] == run.take(index + 1)[k]);
                    }
                }
                assert(parts.deep_view() =~= after);
            }
        }
        proof {
            assert(run.take(run.len() as int) =~= run);
            reveal_strlit(";");
            assert(";"@ =~= issue_separator());
        }
        let issue = join_strings(&parts, ";");
        IssueLog { date, issue }
    }
}

} // verus!
