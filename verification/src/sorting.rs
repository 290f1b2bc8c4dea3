//! Stable sorting of worklog rows by issue and date.

use crate::date::lemma_date_le_antisymmetric;
use crate::date::lemma_date_le_total;
use crate::date::lemma_date_le_transitive;
use crate::models::entries;
use crate::models::Entry;
use crate::models::IssueLog;
use crate::text::lemma_lex_le_antisymmetric;
use crate::text::lemma_lex_le_total;
use crate::text::lemma_lex_le_transitive;
use crate::text::lex_le;
use crate::text::str_le;
use vstd::prelude::*;
use vstd::seq_lib::to_multiset_build;
use vstd::seq_lib::to_multiset_contains;
use vstd::seq_lib::to_multiset_insert;

verus! {

/// What rows are ordered by.
#[derive(Clone, Copy, Debug, PartialEq, Eq, Structural)]
pub enum SortKey {
    /// By issue key, rows of one issue by date.
    IssueThenDate,
    /// By date, rows of one day by issue key.
    DateThenIssue,
    /// By date alone.
    Date,
}

/// Whether `a` may stand before `b` in a sequence ordered by `key`.
pub open spec fn entry_le(key: SortKey, a: Entry, b: Entry) -> bool {
    match key {
        SortKey::IssueThenDate => if a.issue == b.issue {
            a.date.le(b.date)
        } else {
            lex_le(a.issue, b.issue)
        },
        SortKey::DateThenIssue => if a.date == b.date {
            lex_le(a.issue, b.issue)
        } else {
            a.date.le(b.date)
        },
        SortKey::Date => a.date.le(b.date),
    }
}

/// Whether `key` tells any two different entries apart.
pub open spec fn distinguishes(key: SortKey) -> bool {
    key != SortKey::Date
}

/// Whether `s` is ordered by `key`.
pub open spec fn is_sorted(s: Seq<Entry>, key: SortKey) -> bool {
    forall|i: int, j: int| 0 <= i < j < s.len() ==> entry_le(key, #[trigger] s[i], #[trigger] s[j])
}

/// Where `x` goes into the ordered sequence `s`: behind the last entry that
/// may stand before it, so behind all its equals.
pub open spec fn insert_point(s: Seq<Entry>, x: Entry, key: SortKey) -> int
    decreases s.len(),
{
    if s.len() == 0 {
        0
    } else if entry_le(key, s.last(), x) {
        s.len() as int
    } else {
        insert_point(s.drop_last(), x, key)
    }
}

/// The entries of `s` ordered by `key`, equals in the order in which `s` has
/// them: each entry in turn is put behind the last one that may stand before
/// it.
pub open spec fn stable_sort(s: Seq<Entry>, key: SortKey) -> Seq<Entry>
    decreases s.len(),
{
    if s.len() == 0 {
        s
    } else {
        let sorted = stable_sort(s.drop_last(), key);
        sorted.insert(insert_point(sorted, s.last(), key), s.last())
    }
}

/// Of two entries one may stand before the other.
pub proof fn lemma_entry_le_total(key: SortKey, a: Entry, b: Entry)
    ensures
        entry_le(key, a, b) || entry_le(key, b, a),
{
    lemma_date_le_total(a.date, b.date);
    lemma_lex_le_total(a.issue, b.issue);
}

/// The order of entries is transitive.
pub proof fn lemma_entry_le_transitive(key: SortKey, a: Entry, b: Entry, c: Entry)
    requires
        entry_le(key, a, b),
        entry_le(key, b, c),
    ensures
        entry_le(key, a, c),
{
    match key {
        SortKey::IssueThenDate => {
            if a.issue == b.issue && b.issue == c.issue {
                lemma_date_le_transitive(a.date, b.date, c.date);
            } else if a.issue != b.issue && b.issue != c.issue {
                lemma_lex_le_transitive(a.issue, b.issue, c.issue);
                if a.issue == c.issue {
                    lemma_lex_le_antisymmetric(a.issue, b.issue);
                }
            }
        },
        SortKey::DateThenIssue => {
            if a.date == b.date && b.date == c.date {
                lemma_lex_le_transitive(a.issue, b.issue, c.issue);
            } else if a.date != b.date && b.date != c.date {
                lemma_date_le_transitive(a.date, b.date, c.date);
                if a.date == c.date {
                    lemma_date_le_antisymmetric(a.date, b.date);
                }
            }
        },
        SortKey::Date => {
            lemma_date_le_transitive(a.date, b.date, c.date);
        },
    }
}

/// Under a key that holds both the issue and the date, two entries that may
/// each stand before the other are the same entry.
pub proof fn lemma_entry_le_antisymmetric(key: SortKey, a: Entry, b: Entry)
    requires
        distinguishes(key),
        entry_le(key, a, b),
        entry_le(key, b, a),
    ensures
        a == b,
{
    if a.issue == b.issue {
        if a.date != b.date {
            lemma_date_le_antisymmetric(a.date, b.date);
        }
    } else if a.date == b.date {
        lemma_lex_le_antisymmetric(a.issue, b.issue);
    } else {
        match key {
            SortKey::IssueThenDate => {
                lemma_lex_le_antisymmetric(a.issue, b.issue);
            },
            _ => {
                lemma_date_le_antisymmetric(a.date, b.date);
            },
        }
    }
}

/// A sequence ordered by date and issue is ordered by date.
pub proof fn lemma_sorted_by_date(s: Seq<Entry>)
    requires
        is_sorted(s, SortKey::DateThenIssue),
    ensures
        is_sorted(s, SortKey::Date),
{
    assert forall|i: int, j: int| 0 <= i < j < s.len() implies entry_le(
        SortKey::Date,
        #[trigger] s[i],
        #[trigger] s[j],
    ) by {
        assert(entry_le(SortKey::DateThenIssue, s[i], s[j]));
    }
}

/// The insertion point lies within the sequence or at its end; the entry
/// before it may stand before `x`, and none from it on may.
pub proof fn lemma_insert_point(s: Seq<Entry>, x: Entry, key: SortKey)
    ensures
        0 <= insert_point(s, x, key) <= s.len(),
        insert_point(s, x, key) > 0 ==> entry_le(key, s[insert_point(s, x, key) - 1], x),
        forall|k: int| insert_point(s, x, key) <= k < s.len() ==> !entry_le(key, #[trigger] s[k], x),
    decreases s.len(),
{
    if s.len() > 0 && !entry_le(key, s.last(), x) {
        let front = s.drop_last();
        lemma_insert_point(front, x, key);
        assert forall|k: int| insert_point(s, x, key) <= k < s.len() implies !entry_le(
            key,
            #[trigger] s[k],
            x,
        ) by {
            if k < front.len() {
                assert(s[k] == front[k]);
            }
        }
    }
}

/// Putting an entry at its insertion point keeps an ordered sequence
/// ordered.
pub proof fn lemma_insert_keeps_sorted(s: Seq<Entry>, x: Entry, key: SortKey)
    requires
        is_sorted(s, key),
    ensures
        is_sorted(s.insert(insert_point(s, x, key), x), key),
{
    let p = insert_point(s, x, key);
    let r = s.insert(p, x);
    lemma_insert_point(s, x, key);
    assert forall|i: int, j: int| 0 <= i < j < r.len() implies entry_le(
        key,
        #[trigger] r[i],
        #[trigger] r[j],
    ) by {
        if i == p {
            assert(r[j] == s[j - 1]);
            lemma_entry_le_total(key, x, s[j - 1]);
        } else if j == p {
            assert(r[i] == s[i]);
            if i < p - 1 {
                assert(entry_le(key, s[i], s[p - 1]));
                lemma_entry_le_transitive(key, s[i], s[p - 1], x);
            }
        } else {
            let a = if i < p {
                i
            } else {
                i - 1
            };
            let b = if j < p {
                j
            } else {
                j - 1
            };
            assert(r[i] == s[a]);
            assert(r[j] == s[b]);
        }
    }
}

/// Sorting gives an ordered sequence.
pub proof fn lemma_stable_sort_sorted(s: Seq<Entry>, key: SortKey)
    ensures
        is_sorted(stable_sort(s, key), key),
    decreases s.len(),
{
    if s.len() > 0 {
        lemma_stable_sort_sorted(s.drop_last(), key);
        lemma_insert_keeps_sorted(stable_sort(s.drop_last(), key), s.last(), key);
    }
}

/// Sorting neither adds nor drops an entry: each occurs as often as before.
pub proof fn lemma_stable_sort_permutes(s: Seq<Entry>, key: SortKey)
    ensures
        stable_sort(s, key).to_multiset() == s.to_multiset(),
        stable_sort(s, key).len() == s.len(),
    decreases s.len(),
{
    if s.len() > 0 {
        let sorted = stable_sort(s.drop_last(), key);
        lemma_stable_sort_permutes(s.drop_last(), key);
        lemma_insert_point(sorted, s.last(), key);
        to_multiset_insert(sorted, insert_point(sorted, s.last(), key), s.last());
        to_multiset_build(s.drop_last(), s.last());
        assert(s.drop_last().push(s.last()) =~= s);
    }
}

/// Sorting neither adds an entry nor loses one.
pub proof fn lemma_stable_sort_contains(s: Seq<Entry>, key: SortKey, e: Entry)
    ensures
        stable_sort(s, key).contains(e) <==> s.contains(e),
{
    lemma_stable_sort_permutes(s, key);
    to_multiset_contains(stable_sort(s, key), e);
    to_multiset_contains(s, e);
}

/// Sorting an ordered sequence changes nothing.
pub proof fn lemma_stable_sort_of_sorted(s: Seq<Entry>, key: SortKey)
    requires
        is_sorted(s, key),
    ensures
        stable_sort(s, key) == s,
    decreases s.len(),
{
    if s.len() > 0 {
        let front = s.drop_last();
        assert forall|i: int, j: int| 0 <= i < j < front.len() implies entry_le(
            key,
            #[trigger] front[i],
            #[trigger] front[j],
        ) by {
            assert(entry_le(key, s[i], s[j]));
        }
        lemma_stable_sort_of_sorted(front, key);
        if front.len() > 0 {
            assert(entry_le(key, s[front.len() - 1], s[s.len() - 1]));
            assert(front.last() == s[front.len() - 1]);
        }
        assert(front.insert(front.len() as int, s.last()) =~= s);
    }
}

/// Sorting twice by the same key is sorting once.
pub proof fn lemma_stable_sort_idempotent(s: Seq<Entry>, key: SortKey)
    ensures
        stable_sort(stable_sort(s, key), key) == stable_sort(s, key),
{
    lemma_stable_sort_sorted(s, key);
    lemma_stable_sort_of_sorted(stable_sort(s, key), key);
}

/// Whether `key` does not tell `a` and `b` apart.
pub open spec fn tied(key: SortKey, a: Entry, b: Entry) -> bool {
    entry_le(key, a, b) && entry_le(key, b, a)
}

/// The entries of `s` that `key` does not tell apart from `x`, in order.
pub open spec fn ties_of(s: Seq<Entry>, key: SortKey, x: Entry) -> Seq<Entry> {
    s.filter(|e: Entry| tied(key, e, x))
}

/// Sorting is stable: the entries that the key does not tell apart stand in
/// the order in which they stood before.
pub proof fn lemma_stable_sort_stable(s: Seq<Entry>, key: SortKey, x: Entry)
    ensures
        ties_of(stable_sort(s, key), key, x) == ties_of(s, key, x),
    decreases s.len(),
{
    if s.len() > 0 {
        let pred = |e: Entry| tied(key, e, x);
        let front = s.drop_last();
        let y = s.last();
        let sorted = stable_sort(front, key);
        let p = insert_point(sorted, y, key);
        let head = sorted.take(p);
        let tail = sorted.skip(p);
        lemma_stable_sort_stable(front, key, x);
        lemma_insert_point(sorted, y, key);
        assert(sorted =~= head + tail);
        assert(sorted.insert(p, y) =~= head.push(y) + tail);
        assert(front.push(y) =~= s);
        Seq::filter_distributes_over_add(head, tail, pred);
        Seq::filter_distributes_over_add(head.push(y), tail, pred);
        head.lemma_filter_push(y, pred);
        front.lemma_filter_push(y, pred);
        if tied(key, y, x) {
            assert forall|k: int| 0 <= k < tail.len() implies !pred(#[trigger] tail[k]) by {
                assert(tail[k] == sorted[p + k]);
                if tied(key, tail[k], x) {
                    lemma_entry_le_transitive(key, tail[k], x, y);
                }
            }
            assert(tail.all(|e: Entry| !pred(e)));
            tail.lemma_all_neg_filter_empty(pred);
            assert(tail.filter(pred) =~= Seq::<Entry>::empty());
            assert(head.filter(pred) + tail.filter(pred) =~= head.filter(pred));
            assert(head.filter(pred).push(y) + tail.filter(pred) =~= head.filter(pred).push(y));
        }
    }
}

/// Whether `a` may stand before `b` in a sequence ordered by `key`.
pub fn log_not_after(a: &IssueLog, b: &IssueLog, key: SortKey) -> (r: bool)
    ensures
        r == entry_le(key, a@, b@),
{
    match key {
        SortKey::IssueThenDate => {
            if a.issue == b.issue {
                a.date.not_after(&b.date)
            } else {
                str_le(a.issue.as_str(), b.issue.as_str())
            }
        },
        SortKey::DateThenIssue => {
            if a.date == b.date {
                str_le(a.issue.as_str(), b.issue.as_str())
            } else {
                a.date.not_after(&b.date)
            }
        },
        SortKey::Date => a.date.not_after(&b.date),
    }
}

/// Sorts rows by `key`; rows that the key does not tell apart keep their
/// order.
pub fn sort_logs(logs: Vec<IssueLog>, key: SortKey) -> (r: Vec<IssueLog>)
    ensures
        entries(r@) == stable_sort(entries(logs@), key),
        is_sorted(entries(r@), key),
        entries(r@).to_multiset() == entries(logs@).to_multiset(),
        r.len() == logs.len(),
{
    let ghost input = entries(logs@);
    let mut out: Vec<IssueLog> = Vec::new();
    proof {
        assert(entries(out@) =~= stable_sort(input.take(0), key));
    }
    for log in it: logs
        invariant
            entries(it.seq()) == input,
            entries(out@) == stable_sort(input.take(it.index() as int), key),
    {
        let ghost index = it.index() as int;
        let ghost done = entries(out@);
        proof {
            assert(index < it.seq().len());
            assert(input.len() == it.seq().len());
            assert(log@ == input[index]);
        }
        let mut pos: usize = out.len();
        proof {
            assert(done.take(pos as int) =~= done);
        }
        while pos > 0 && !log_not_after(&out[pos - 1], &log, key)
            invariant
                pos <= out.len(),
                entries(out@) == done,
                insert_point(done, log@, key) == insert_point(done.take(pos as int), log@, key),
            decreases pos,
        {
            proof {
                assert(done.take(pos as int).drop_last() =~= done.take(pos - 1));
                assert(done.take(pos as int).last() == out@[pos - 1]@);
            }
            pos -= 1;
        }
        proof {
            if pos > 0 {
                assert(done.take(pos as int).last() == out@[pos - 1]@);
            }
            assert(insert_point(done, log@, key) == pos);
        }
        out.insert(pos, log);
        proof {
            let prefix = input.take(index + 1);
            assert(prefix.drop_last() =~= input.take(index));
            assert(prefix.last() == input[index]);
            assert(entries(out@) =~= done.insert(pos as int, input[index]));
        }
    }
    proof {
        assert(input.take(input.len() as int) =~= input);
        lemma_stable_sort_sorted(input, key);
        lemma_stable_sort_permutes(input, key);
    }
    out
}

} // verus!
