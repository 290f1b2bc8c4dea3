//! Grouping: runs of equal rows collapse to one row, and the rows of one day
//! collapse to one row that lists the day's issues.

use crate::date::lemma_date_le_antisymmetric;
use crate::date::lemma_date_le_transitive;
use crate::extract::entry_of;
use crate::extract::extract_issue_from_msg;
use crate::extract::Extractor;
use crate::models::collapsed;
use crate::models::entries;
use crate::models::records;
use crate::models::CommandOutput;
use crate::models::Entry;
use crate::models::IssueLog;
use crate::models::Record;
use crate::sorting::distinguishes;
use crate::sorting::entry_le;
use crate::sorting::is_sorted;
use crate::sorting::lemma_entry_le_antisymmetric;
use crate::sorting::lemma_stable_sort_of_sorted;
use crate::sorting::lemma_stable_sort_sorted;
use crate::sorting::sort_logs;
use crate::sorting::stable_sort;
use crate::sorting::SortKey;
use vstd::prelude::*;

verus! {

/// One entry for each maximal run of equal entries that follow each other.
pub open spec fn run_heads(s: Seq<Entry>) -> Seq<Entry>
    decreases s.len(),
{
    if s.len() == 0 {
        s
    } else if s.len() >= 2 && s[s.len() - 2] == s.last() {
        run_heads(s.drop_last())
    } else {
        run_heads(s.drop_last()).push(s.last())
    }
}

/// Whether no entry of `s` equals the one that follows it.
pub open spec fn no_repeats(s: Seq<Entry>) -> bool {
    forall|i: int| 0 <= i < s.len() - 1 ==> #[trigger] s[i] != s[i + 1]
}

/// One entry per issue and day: the entries ordered by issue and date, each
/// run of equal ones collapsed to one.
pub open spec fn grouped(s: Seq<Entry>) -> Seq<Entry> {
    run_heads(stable_sort(s, SortKey::IssueThenDate))
}

/// The entries that records count towards, in the order of the records.
pub open spec fn projected(logs: Seq<Record>, pattern: Option<Seq<char>>) -> Seq<Entry> {
    logs.map_values(|record: Record| entry_of(pattern, record))
}

/// The entries that have an issue key, in order.
pub open spec fn keyed(s: Seq<Entry>) -> Seq<Entry> {
    s.filter(|e: Entry| e.issue.len() > 0)
}

/// The maximal runs of entries of one date that follow each other.
pub open spec fn date_runs(s: Seq<Entry>) -> Seq<Seq<Entry>>
    decreases s.len(),
{
    if s.len() == 0 {
        Seq::empty()
    } else if s.len() >= 2 && s[s.len() - 2].date == s.last().date {
        let front = date_runs(s.drop_last());
        front.drop_last().push(front.last().push(s.last()))
    } else {
        date_runs(s.drop_last()).push(seq![s.last()])
    }
}

/// One row per day: the entries without an issue key are dropped, and each
/// run of entries of one date collapses to one entry that lists their issue
/// keys.
pub open spec fn collapsed_by_date(s: Seq<Entry>) -> Seq<Entry> {
    collapsed_runs(keyed(s))
}

/// The heads of the runs of a sequence that is not empty end with its last
/// entry.
pub proof fn lemma_run_heads_last(s: Seq<Entry>)
    requires
        s.len() > 0,
    ensures
        run_heads(s).len() > 0,
        run_heads(s).last() == s.last(),
    decreases s.len(),
{
    if s.len() >= 2 && s[s.len() - 2] == s.last() {
        lemma_run_heads_last(s.drop_last());
    }
}

/// Among the heads of the runs no entry equals the one that follows it.
pub proof fn lemma_run_heads_no_repeats(s: Seq<Entry>)
    ensures
        no_repeats(run_heads(s)),
    decreases s.len(),
{
    if s.len() > 0 {
        let front = s.drop_last();
        lemma_run_heads_no_repeats(front);
        if front.len() > 0 {
            lemma_run_heads_last(front);
        }
    }
}

/// A sequence in which no entry equals the one that follows it is the
/// sequence of the heads of its runs.
pub proof fn lemma_run_heads_of_no_repeats(s: Seq<Entry>)
    requires
        no_repeats(s),
    ensures
        run_heads(s) == s,
    decreases s.len(),
{
    if s.len() > 0 {
        let front = s.drop_last();
        assert forall|i: int| 0 <= i < front.len() - 1 implies #[trigger] front[i] != front[i
            + 1] by {
            assert(s[i] != s[i + 1]);
        }
        lemma_run_heads_of_no_repeats(front);
        if s.len() >= 2 {
            assert(s[s.len() - 2] != s[s.len() - 2 + 1]);
        }
        assert(front.push(s.last()) =~= s);
    }
}

/// Collapsing runs twice is collapsing them once.
pub proof fn lemma_run_heads_idempotent(s: Seq<Entry>)
    ensures
        run_heads(run_heads(s)) == run_heads(s),
{
    lemma_run_heads_no_repeats(s);
    lemma_run_heads_of_no_repeats(run_heads(s));
}

/// Collapsing runs neither adds an entry nor loses one altogether.
pub proof fn lemma_run_heads_contains(s: Seq<Entry>, e: Entry)
    ensures
        run_heads(s).contains(e) <==> s.contains(e),
    decreases s.len(),
{
    if s.len() > 0 {
        let front = s.drop_last();
        let heads = run_heads(front);
        lemma_run_heads_contains(front, e);
        assert(front.push(s.last()) =~= s);
        if s.contains(e) {
            let i = choose|i: int| 0 <= i < s.len() && s[i] == e;
            if i < front.len() {
                assert(front[i] == e);
                assert(front.contains(e));
            } else if s.len() >= 2 && s[s.len() - 2] == s.last() {
                assert(front[s.len() - 2] == e);
                assert(front.contains(e));
            }
        }
        if front.contains(e) {
            let i = choose|i: int| 0 <= i < front.len() && front[i] == e;
            assert(s[i] == e);
        }
        if !(s.len() >= 2 && s[s.len() - 2] == s.last()) {
            let r = heads.push(s.last());
            assert(r[r.len() - 1] == s.last());
            assert(s[s.len() - 1] == s.last());
            if r.contains(e) {
                let i = choose|i: int| 0 <= i < r.len() && r[i] == e;
                if i < heads.len() {
                    assert(heads[i] == e);
                    assert(heads.contains(e));
                }
            }
            if heads.contains(e) {
                let i = choose|i: int| 0 <= i < heads.len() && heads[i] == e;
                assert(r[i] == e);
            }
        }
    }
}

/// Collapsing the runs of an ordered sequence leaves it ordered.
pub proof fn lemma_run_heads_sorted(s: Seq<Entry>, key: SortKey)
    requires
        is_sorted(s, key),
    ensures
        is_sorted(run_heads(s), key),
    decreases s.len(),
{
    if s.len() > 0 {
        let front = s.drop_last();
        let heads = run_heads(front);
        assert forall|i: int, j: int| 0 <= i < j < front.len() implies entry_le(
            key,
            #[trigger] front[i],
            #[trigger] front[j],
        ) by {
            assert(entry_le(key, s[i], s[j]));
        }
        lemma_run_heads_sorted(front, key);
        if !(s.len() >= 2 && s[s.len() - 2] == s.last()) {
            let r = heads.push(s.last());
            assert forall|i: int, j: int| 0 <= i < j < r.len() implies entry_le(
                key,
                #[trigger] r[i],
                #[trigger] r[j],
            ) by {
                if j == heads.len() {
                    assert(heads.contains(heads[i]));
                    lemma_run_heads_contains(front, heads[i]);
                    let k = choose|k: int| 0 <= k < front.len() && front[k] == heads[i];
                    assert(entry_le(key, s[k], s[s.len() - 1]));
                } else {
                    assert(entry_le(key, heads[i], heads[j]));
                }
            }
        }
    }
}

/// An ordered sequence in which no entry equals the one that follows it
/// holds no entry twice, where the key tells different entries apart.
pub proof fn lemma_sorted_no_repeats_distinct(s: Seq<Entry>, key: SortKey)
    requires
        distinguishes(key),
        is_sorted(s, key),
        no_repeats(s),
    ensures
        s.no_duplicates(),
{
    assert forall|i: int, j: int| 0 <= i < s.len() && 0 <= j < s.len() && i != j implies s[i]
        != s[j] by {
        let a = if i < j {
            i
        } else {
            j
        };
        let b = if i < j {
            j
        } else {
            i
        };
        if s[a] == s[b] {
            assert(s[a] != s[a + 1]);
            if a + 1 < b {
                assert(entry_le(key, s[a], s[a + 1]));
                assert(entry_le(key, s[a + 1], s[b]));
                lemma_entry_le_antisymmetric(key, s[a], s[a + 1]);
            }
        }
    }
}

/// Where the entries are ordered by a key that tells different entries
/// apart, collapsing their runs leaves each entry once.
pub proof fn lemma_run_heads_distinct(s: Seq<Entry>, key: SortKey)
    requires
        distinguishes(key),
        is_sorted(s, key),
    ensures
        run_heads(s).no_duplicates(),
        forall|e: Entry| run_heads(s).contains(e) <==> s.contains(e),
{
    lemma_run_heads_sorted(s, key);
    lemma_run_heads_no_repeats(s);
    lemma_sorted_no_repeats_distinct(run_heads(s), key);
    assert forall|e: Entry| run_heads(s).contains(e) <==> s.contains(e) by {
        lemma_run_heads_contains(s, e);
    }
}

/// Grouping is idempotent: to group what was grouped changes nothing.
pub proof fn lemma_grouped_idempotent(s: Seq<Entry>)
    ensures
        grouped(grouped(s)) == grouped(s),
{
    let key = SortKey::IssueThenDate;
    lemma_stable_sort_sorted(s, key);
    lemma_run_heads_sorted(stable_sort(s, key), key);
    lemma_stable_sort_of_sorted(grouped(s), key);
    lemma_run_heads_idempotent(stable_sort(s, key));
}

/// What was grouped is ordered by issue and date and holds no entry twice;
/// it holds the entries that were there before, and no others.
pub proof fn lemma_grouped_distinct(s: Seq<Entry>)
    ensures
        is_sorted(grouped(s), SortKey::IssueThenDate),
        grouped(s).no_duplicates(),
        forall|e: Entry| grouped(s).contains(e) <==> s.contains(e),
{
    let key = SortKey::IssueThenDate;
    let sorted = stable_sort(s, key);
    lemma_stable_sort_sorted(s, key);
    lemma_run_heads_sorted(sorted, key);
    lemma_run_heads_no_repeats(sorted);
    lemma_sorted_no_repeats_distinct(grouped(s), key);
    assert forall|e: Entry| grouped(s).contains(e) <==> s.contains(e) by {
        lemma_run_heads_contains(sorted, e);
        crate::sorting::lemma_stable_sort_contains(s, key, e);
    }
}

/// Whether two rows are the same row.
pub fn same_log(a: &IssueLog, b: &IssueLog) -> (r: bool)
    ensures
        r == (a@ == b@),
{
    proof {
        if a.issue@ == b.issue@ && a.date == b.date {
            assert(a@ == b@);
        }
    }
    a.date == b.date && a.issue == b.issue
}

/// Collapses each run of equal rows that follow each other to its first
/// row. Equal rows that do not follow each other stay apart: rows that are
/// to be grouped have to be sorted first, as [`group_logs`] does.
pub fn collapse_runs(logs: Vec<IssueLog>) -> (r: Vec<IssueLog>)
    ensures
        entries(r@) == run_heads(entries(logs@)),
{
    let ghost input = entries(logs@);
    let mut out: Vec<IssueLog> = Vec::new();
    let mut last: Option<IssueLog> = None;
    proof {
        assert(entries(out@) =~= run_heads(input.take(0)));
    }
    for log in it: logs
        invariant
            entries(it.seq()) == input,
            entries(out@) == run_heads(input.take(it.index() as int)),
            it.index() == 0 ==> last is None,
            it.index() > 0 ==> last is Some && last->Some_0@ == input[it.index() - 1],
    {
        let ghost index = it.index() as int;
        let ghost done = entries(out@);
        proof {
            assert(index < it.seq().len());
            assert(input.len() == it.seq().len());
            assert(log@ == input[index]);
            let prefix = input.take(index + 1);
            assert(prefix.drop_last() =~= input.take(index));
            assert(prefix.last() == input[index]);
            if index > 0 {
                assert(prefix[prefix.len() - 2] == input[index - 1]);
            }
        }
        let repeat = match &last {
            Some(previous) => same_log(previous, &log),
            None => false,
        };
        if !repeat {
            out.push(copy_log(&log));
            proof {
                assert(entries(out@) =~= done.push(input[index]));
            }
        }
        last = Some(log);
    }
    proof {
        assert(input.take(input.len() as int) =~= input);
    }
    out
}

/// A second copy of a row.
pub fn copy_log(log: &IssueLog) -> (r: IssueLog)
    ensures
        r@ == log@,
{
    IssueLog { date: log.date, issue: log.issue.clone() }
}

/// One row per issue and day: sorts the rows by issue and date and collapses
/// each run of equal rows to one.
pub fn group_logs(logs: Vec<IssueLog>) -> (r: Vec<IssueLog>)
    ensures
        entries(r@) == grouped(entries(logs@)),
{
    collapse_runs(sort_logs(logs, SortKey::IssueThenDate))
}

/// The rows that the records give: one for each issue key and day that
/// occurs among them, ordered by issue and date.
pub fn get_issue_logs(command_logs: Vec<CommandOutput>, extractor: &Extractor) -> (r: Vec<
    IssueLog,
>)
    ensures
        entries(r@) == grouped(projected(records(command_logs@), extractor.pattern())),
{
    let ghost input = records(command_logs@);
    let mut issue_logs: Vec<IssueLog> = Vec::new();
    proof {
        assert(entries(issue_logs@) =~= projected(input.take(0), extractor.pattern()));
    }
    for log in it: command_logs
        invariant
            records(it.seq()) == input,
            entries(issue_logs@) == projected(input.take(it.index() as int), extractor.pattern()),
    {
        let ghost index = it.index() as int;
        let ghost done = entries(issue_logs@);
        proof {
            assert(index < it.seq().len());
            assert(input.len() == it.seq().len());
            assert(log@ == input[index]);
        }
        issue_logs.push(IssueLog::new(extract_issue_from_msg(&log, extractor)));
        proof {
            let entry = entry_of(extractor.pattern(), input[index]);
            assert(entries(issue_logs@) =~= done.push(entry));
            assert(projected(input.take(index + 1), extractor.pattern()) =~= done.push(entry));
        }
    }
    proof {
        assert(input.take(input.len() as int) =~= input);
    }
    group_logs(issue_logs)
}

/// What each of `groups` stands for, in order.
pub open spec fn runs_of(groups: Seq<Vec<IssueLog>>) -> Seq<Seq<Entry>> {
    groups.map_values(|group: Vec<IssueLog>| entries(group@))
}

/// The runs of a sequence that is not empty: there is one, none is empty,
/// and the last entry of the last run is the last entry of the sequence.
pub proof fn lemma_date_runs(s: Seq<Entry>)
    ensures
        forall|k: int| 0 <= k < date_runs(s).len() ==> (#[trigger] date_runs(s)[k]).len() > 0,
        s.len() > 0 ==> date_runs(s).len() > 0 && date_runs(s).last().last() == s.last(),
    decreases s.len(),
{
    if s.len() > 0 {
        let front = date_runs(s.drop_last());
        lemma_date_runs(s.drop_last());
        let runs = date_runs(s);
        assert forall|k: int| 0 <= k < runs.len() implies (#[trigger] runs[k]).len() > 0 by {
            if k < runs.len() - 1 {
                assert(runs[k] == front[k]);
            }
        }
    }
}

/// The runs one after the other are the sequence that was split.
pub proof fn lemma_date_runs_flatten(s: Seq<Entry>)
    ensures
        date_runs(s).flatten() == s,
    decreases s.len(),
{
    if s.len() == 0 {
        assert(date_runs(s).flatten() =~= s);
    } else {
        let front = date_runs(s.drop_last());
        lemma_date_runs_flatten(s.drop_last());
        lemma_date_runs(s.drop_last());
        if s.len() >= 2 && s[s.len() - 2].date == s.last().date {
            let body = front.drop_last();
            assert(body.push(front.last()) =~= front);
            body.lemma_flatten_push(front.last());
            body.lemma_flatten_push(front.last().push(s.last()));
            assert(body.flatten() + front.last().push(s.last()) =~= (body.flatten()
                + front.last()).push(s.last()));
        } else {
            front.lemma_flatten_push(seq![s.last()]);
        }
        assert(s.drop_last().push(s.last()) =~= s);
    }
}

/// The runs are maximal: where one run ends and the next begins, the date
/// changes.
pub proof fn lemma_date_runs_maximal(s: Seq<Entry>)
    ensures
        forall|k: int|
            0 <= k < date_runs(s).len() - 1 ==> (#[trigger] date_runs(s)[k]).last().date
                != date_runs(s)[k + 1][0].date,
    decreases s.len(),
{
    if s.len() > 0 {
        let front = date_runs(s.drop_last());
        let runs = date_runs(s);
        lemma_date_runs_maximal(s.drop_last());
        lemma_date_runs(s.drop_last());
        assert forall|k: int| 0 <= k < runs.len() - 1 implies (#[trigger] runs[k]).last().date
            != runs[k + 1][0].date by {
            if s.len() >= 2 && s[s.len() - 2].date == s.last().date {
                assert(runs[k] == front[k]);
                if k + 1 < runs.len() - 1 {
                    assert(runs[k + 1] == front[k + 1]);
                } else {
                    assert(runs[k + 1][0] == front[k + 1][0]);
                }
            } else {
                assert(runs[k] == front[k]);
                if k + 1 < runs.len() - 1 {
                    assert(runs[k + 1] == front[k + 1]);
                } else {
                    assert(front.last().last() == s.drop_last().last());
                    assert(s.drop_last().last() == s[s.len() - 2]);
                }
            }
        }
    }
}

/// All entries of a run have the date of its first.
pub proof fn lemma_date_runs_same_date(s: Seq<Entry>)
    ensures
        forall|k: int, i: int|
            #![trigger date_runs(s)[k][i]]
            0 <= k < date_runs(s).len() && 0 <= i < date_runs(s)[k].len() ==> date_runs(s)[k][i].date
                == date_runs(s)[k][0].date,
    decreases s.len(),
{
    if s.len() > 0 {
        let front = date_runs(s.drop_last());
        lemma_date_runs_same_date(s.drop_last());
        lemma_date_runs(s.drop_last());
        let runs = date_runs(s);
        assert forall|k: int, i: int|
            #![trigger runs[k][i]]
            0 <= k < runs.len() && 0 <= i < runs[k].len() implies runs[k][i].date
            == runs[k][0].date by {
            if k < runs.len() - 1 {
                assert(runs[k] == front[k]);
            } else if s.len() >= 2 && s[s.len() - 2].date == s.last().date {
                let run = front.last();
                assert(run.last() == s.drop_last().last());
                if i < run.len() {
                    assert(runs[k][i] == run[i]);
                } else {
                    assert(run[run.len() - 1].date == run[0].date);
                }
            }
        }
    }
}

/// Whether each entry is of a later day than the one before it.
pub open spec fn days_increase(s: Seq<Entry>) -> bool {
    forall|i: int, j: int|
        0 <= i < j < s.len() ==> (#[trigger] s[i]).date.le((#[trigger] s[j]).date) && s[i].date
            != s[j].date
}

/// One entry for each run of entries of one date.
pub open spec fn collapsed_runs(s: Seq<Entry>) -> Seq<Entry> {
    date_runs(s).map_values(|run: Seq<Entry>| collapsed(run))
}

/// To drop the entries without an issue key adds no entry.
pub proof fn lemma_keyed_contains(s: Seq<Entry>, e: Entry)
    requires
        keyed(s).contains(e),
    ensures
        s.contains(e),
    decreases s.len(),
{
    reveal(Seq::filter);
    if s.len() > 0 {
        let front = s.drop_last();
        let kept = keyed(front);
        let i = choose|i: int| 0 <= i < keyed(s).len() && keyed(s)[i] == e;
        if i < kept.len() {
            assert(kept[i] == e);
            assert(kept.contains(e));
            lemma_keyed_contains(front, e);
            let k = choose|k: int| 0 <= k < front.len() && front[k] == e;
            assert(s[k] == e);
        } else {
            assert(s[s.len() - 1] == e);
        }
    }
}

/// To drop the entries without an issue key leaves an ordered sequence
/// ordered.
pub proof fn lemma_keyed_sorted(s: Seq<Entry>, key: SortKey)
    requires
        is_sorted(s, key),
    ensures
        is_sorted(keyed(s), key),
    decreases s.len(),
{
    reveal(Seq::filter);
    if s.len() > 0 {
        let front = s.drop_last();
        assert forall|i: int, j: int| 0 <= i < j < front.len() implies entry_le(
            key,
            #[trigger] front[i],
            #[trigger] front[j],
        ) by {
            assert(entry_le(key, s[i], s[j]));
        }
        lemma_keyed_sorted(front, key);
        if s.last().issue.len() > 0 {
            let kept = keyed(front);
            let r = kept.push(s.last());
            assert forall|i: int, j: int| 0 <= i < j < r.len() implies entry_le(
                key,
                #[trigger] r[i],
                #[trigger] r[j],
            ) by {
                if j == kept.len() {
                    assert(kept.contains(kept[i]));
                    lemma_keyed_contains(front, kept[i]);
                    let k = choose|k: int| 0 <= k < front.len() && front[k] == kept[i];
                    assert(entry_le(key, s[k], s[s.len() - 1]));
                } else {
                    assert(entry_le(key, kept[i], kept[j]));
                }
            }
        }
    }
}

/// Where the entries are ordered by date, the rows that their runs collapse
/// to are each of a later day than the one before: there is one row per day.
pub proof fn lemma_collapsed_runs_days_increase(s: Seq<Entry>)
    requires
        is_sorted(s, SortKey::Date),
    ensures
        days_increase(collapsed_runs(s)),
        s.len() > 0 ==> collapsed_runs(s).len() > 0 && collapsed_runs(s).last().date
            == s.last().date,
    decreases s.len(),
{
    if s.len() > 0 {
        let front = s.drop_last();
        let x = s.last();
        let runs = date_runs(front);
        let rows = collapsed_runs(front);
        let next = collapsed_runs(s);
        assert forall|i: int, j: int| 0 <= i < j < front.len() implies entry_le(
            SortKey::Date,
            #[trigger] front[i],
            #[trigger] front[j],
        ) by {
            assert(entry_le(SortKey::Date, s[i], s[j]));
        }
        lemma_collapsed_runs_days_increase(front);
        lemma_date_runs(front);
        if s.len() >= 2 {
            assert(front.last() == s[s.len() - 2]);
            assert(entry_le(SortKey::Date, s[s.len() - 2], s[s.len() - 1]));
        }
        if s.len() >= 2 && s[s.len() - 2].date == x.date {
            assert(runs.last().push(x)[0] == runs.last()[0]);
            assert(next.len() == rows.len());
            assert forall|k: int| 0 <= k < next.len() implies (#[trigger] next[k]).date
                == rows[k].date by {
                if k < next.len() - 1 {
                    assert(date_runs(s)[k] == runs[k]);
                }
            }
            assert forall|i: int, j: int| 0 <= i < j < next.len() implies (#[trigger] next[i]).date.le(
                (#[trigger] next[j]).date,
            ) && next[i].date != next[j].date by {
                assert(rows[i].date.le(rows[j].date) && rows[i].date != rows[j].date);
            }
        } else {
            assert(next =~= rows.push(collapsed(seq![x])));
            assert forall|i: int, j: int| 0 <= i < j < next.len() implies (#[trigger] next[i]).date.le(
                (#[trigger] next[j]).date,
            ) && next[i].date != next[j].date by {
                if j == rows.len() {
                    let end = rows.len() - 1;
                    assert(rows[end].date == front.last().date);
                    if i < end {
                        assert(rows[i].date.le(rows[end].date) && rows[i].date != rows[end].date);
                        lemma_date_le_transitive(rows[i].date, rows[end].date, x.date);
                        if rows[i].date == x.date {
                            lemma_date_le_antisymmetric(rows[end].date, x.date);
                        }
                    }
                } else {
                    assert(rows[i].date.le(rows[j].date) && rows[i].date != rows[j].date);
                }
            }
        }
    }
}

/// The rows that have an issue key, in order.
pub fn drop_unkeyed(logs: Vec<IssueLog>) -> (r: Vec<IssueLog>)
    ensures
        entries(r@) == keyed(entries(logs@)),
{
    let ghost input = entries(logs@);
    let mut out: Vec<IssueLog> = Vec::new();
    proof {
        assert(input.take(0) =~= Seq::<Entry>::empty());
        assert(entries(out@) =~= keyed(input.take(0)));
    }
    for log in it: logs
        invariant
            entries(it.seq()) == input,
            entries(out@) == keyed(input.take(it.index() as int)),
    {
        let ghost index = it.index() as int;
        let ghost done = entries(out@);
        proof {
            assert(index < it.seq().len());
            assert(input.len() == it.seq().len());
            assert(log@ == input[index]);
            let prefix = input.take(index + 1);
            assert(prefix.drop_last() =~= input.take(index));
            reveal(Seq::filter);
        }
        if !log.issue.as_str().is_empty() {
            out.push(log);
            proof {
                assert(entries(out@) =~= done.push(input[index]));
            }
        }
    }
    proof {
        assert(input.take(input.len() as int) =~= input);
    }
    out
}

/// The maximal runs of rows of one date that follow each other.
pub fn split_by_date(logs: Vec<IssueLog>) -> (r: Vec<Vec<IssueLog>>)
    ensures
        runs_of(r@) == date_runs(entries(logs@)),
        forall|k: int| 0 <= k < r@.len() ==> (#[trigger] r@[k]).len() > 0,
{
    let ghost input = entries(logs@);
    let mut out: Vec<Vec<IssueLog>> = Vec::new();
    let mut current: Vec<IssueLog> = Vec::new();
    let mut last_date: Option<crate::date::Date> = None;
    for log in it: logs
        invariant
            entries(it.seq()) == input,
            forall|k: int| 0 <= k < out@.len() ==> (#[trigger] out@[k]).len() > 0,
            it.index() == 0 ==> out@.len() == 0 && current@.len() == 0 && last_date is None,
            it.index() > 0 ==> {
                &&& current@.len() > 0
                &&& last_date == Some(input[it.index() - 1].date)
                &&& date_runs(input.take(it.index() as int)) == runs_of(out@).push(
                    entries(current@),
                )
            },
    {
        let ghost index = it.index() as int;
        let ghost closed = runs_of(out@);
        let ghost open = entries(current@);
        proof {
            assert(index < it.seq().len());
            assert(input.len() == it.seq().len());
            assert(log@ == input[index]);
            let prefix = input.take(index + 1);
            assert(prefix.drop_last() =~= input.take(index));
            assert(prefix.last() == input[index]);
            if index > 0 {
                assert(prefix[prefix.len() - 2] == input[index - 1]);
            }
        }
        let same_day = match last_date {
            Some(date) => date == log.date,
            None => false,
        };
        last_date = Some(log.date);
        if same_day {
            current.push(log);
            proof {
                assert(entries(current@) =~= open.push(input[index]));
                assert(closed.push(open).drop_last() =~= closed);
                assert(closed.push(open).last() == open);
                assert(input[index - 1].date == input[index].date);
            }
        } else {
            if current.len() > 0 {
                out.push(current);
                proof {
                    assert(runs_of(out@) =~= closed.push(open));
                }
            }
            current = Vec::new();
            current.push(log);
            proof {
                assert(entries(current@) =~= seq![input[index]]);
                if index > 0 {
                    assert(input[index - 1].date != input[index].date);
                } else {
                    assert(input.take(0) =~= Seq::<Entry>::empty());
                    assert(runs_of(out@) =~= date_runs(input.take(0)));
                }
            }
        }
    }
    proof {
        assert(input.take(input.len() as int) =~= input);
    }
    if current.len() > 0 {
        let ghost closed = runs_of(out@);
        let ghost open = entries(current@);
        out.push(current);
        proof {
            assert(runs_of(out@) =~= closed.push(open));
        }
    } else {
        proof {
            assert(runs_of(out@) =~= date_runs(input));
        }
    }
    out
}

/// One row per day: drops the rows without an issue key and collapses each
/// run of rows of one date to one row that lists their issue keys, with a
/// semicolon between each two.
pub fn collapse_by_date(logs: Vec<IssueLog>) -> (r: Vec<IssueLog>)
    ensures
        entries(r@) == collapsed_by_date(entries(logs@)),
{
    let ghost input = entries(logs@);
    let groups = split_by_date(drop_unkeyed(logs));
    let ghost runs = date_runs(keyed(input));
    let mut out: Vec<IssueLog> = Vec::new();
    for group in it: groups
        invariant
            runs_of(it.seq()) == runs,
            forall|k: int| 0 <= k < it.seq().len() ==> (#[trigger] it.seq()[k]).len() > 0,
            entries(out@) == runs.take(it.index() as int).map_values(
                |run: Seq<Entry>| collapsed(run),
            ),
    {
        let ghost index = it.index() as int;
        let ghost done = entries(out@);
        proof {
            assert(index < it.seq().len());
            assert(runs.len() == it.seq().len());
            assert(group == it.seq()[index]);
            assert(entries(group@) == runs[index]);
        }
        out.push(IssueLog::collaps_logs(group));
        proof {
            assert(entries(out@) =~= done.push(collapsed(runs[index])));
            assert(runs.take(index + 1).map_values(|run: Seq<Entry>| collapsed(run)) =~= done.push(
                collapsed(runs[index]),
            ));
        }
    }
    proof {
        assert(runs.take(runs.len() as int) =~= runs);
    }
    out
}

} // verus!
