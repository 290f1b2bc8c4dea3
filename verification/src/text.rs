//! Character-level text handling: searching, trimming, joining and ordering
//! of character sequences, with executable counterparts on `Vec<char>`.

use vstd::prelude::*;
use vstd::std_specs::iter::IteratorSpec;

verus! {

/// The position of the first `c` in `s`, or the length of `s` where it holds
/// none.
pub open spec fn index_of(s: Seq<char>, c: char) -> int
    decreases s.len(),
{
    if s.len() == 0 {
        0
    } else if s[0] == c {
        0
    } else {
        1 + index_of(s.drop_first(), c)
    }
}

/// `s` without one quote character at its start and one at its end, as far
/// as they are there.
pub open spec fn unquote(s: Seq<char>) -> Seq<char> {
    let inner = if s.len() > 0 && s[0] == '\'' {
        s.drop_first()
    } else {
        s
    };
    if inner.len() > 0 && inner.last() == '\'' {
        inner.drop_last()
    } else {
        inner
    }
}

/// Whether `c` is white space (what Unicode marks as `White_Space`).
pub open spec fn is_space(c: char) -> bool {
    let n = c as u32;
    ||| 0x09 <= n <= 0x0D
    ||| n == 0x20
    ||| n == 0x85
    ||| n == 0xA0
    ||| n == 0x1680
    ||| 0x2000 <= n <= 0x200A
    ||| n == 0x2028
    ||| n == 0x2029
    ||| n == 0x202F
    ||| n == 0x205F
    ||| n == 0x3000
}

/// `s` without the white space at its start.
pub open spec fn trim_start(s: Seq<char>) -> Seq<char>
    decreases s.len(),
{
    if s.len() > 0 && is_space(s[0]) {
        trim_start(s.drop_first())
    } else {
        s
    }
}

/// `s` without the white space at its end.
pub open spec fn trim_end(s: Seq<char>) -> Seq<char>
    decreases s.len(),
{
    if s.len() > 0 && is_space(s.last()) {
        trim_end(s.drop_last())
    } else {
        s
    }
}

/// `s` without the white space at either end.
pub open spec fn trim(s: Seq<char>) -> Seq<char> {
    trim_end(trim_start(s))
}

/// The lines of `text`, split at line feeds, without the empty ones.
pub open spec fn nonempty_lines(text: Seq<char>) -> Seq<Seq<char>>
    decreases text.len(),
{
    if text.len() == 0 {
        Seq::empty()
    } else {
        let end = index_of(text, '\n');
        let head = text.take(end);
        let tail = if 0 <= end < text.len() {
            nonempty_lines(text.skip(end + 1))
        } else {
            Seq::empty()
        };
        if head.len() > 0 {
            seq![head] + tail
        } else {
            tail
        }
    }
}

/// The parts in order, with `sep` between each two neighbours.
pub open spec fn join(parts: Seq<Seq<char>>, sep: Seq<char>) -> Seq<char>
    decreases parts.len(),
{
    if parts.len() == 0 {
        Seq::empty()
    } else if parts.len() == 1 {
        parts[0]
    } else {
        join(parts.drop_last(), sep) + sep + parts.last()
    }
}

/// Lexicographic order by code point: the order of Rust's strings.
pub open spec fn lex_le(a: Seq<char>, b: Seq<char>) -> bool
    decreases a.len(),
{
    if a.len() == 0 {
        true
    } else if b.len() == 0 {
        false
    } else if a[0] != b[0] {
        (a[0] as u32) < (b[0] as u32)
    } else {
        lex_le(a.drop_first(), b.drop_first())
    }
}

/// `index_of` is the first position that holds `c`: it lies within `s` or at
/// its end, no earlier position holds `c`, and it holds `c` unless it is the
/// end.
pub proof fn lemma_index_of(s: Seq<char>, c: char)
    ensures
        0 <= index_of(s, c) <= s.len(),
        forall|k: int| 0 <= k < index_of(s, c) ==> s[k] != c,
        index_of(s, c) < s.len() ==> s[index_of(s, c)] == c,
    decreases s.len(),
{
    if s.len() > 0 && s[0] != c {
        let rest = s.drop_first();
        lemma_index_of(rest, c);
        assert forall|k: int| 0 <= k < index_of(s, c) implies s[k] != c by {
            if k > 0 {
                assert(s[k] == rest[k - 1]);
            }
        }
    }
}

/// A position that holds the first `c` of `s`, or the end of an `s` without
/// any, is `index_of(s, c)`.
pub proof fn lemma_index_of_is(s: Seq<char>, c: char, i: int)
    requires
        0 <= i <= s.len(),
        forall|k: int| 0 <= k < i ==> s[k] != c,
        i < s.len() ==> s[i] == c,
    ensures
        index_of(s, c) == i,
    decreases i,
{
    if i > 0 {
        let rest = s.drop_first();
        assert(s[0] != c);
        assert forall|k: int| 0 <= k < i - 1 implies rest[k] != c by {
            assert(rest[k] == s[k + 1]);
        }
        lemma_index_of_is(rest, c, i - 1);
    }
}

/// Every sequence comes no later than itself.
pub proof fn lemma_lex_le_reflexive(a: Seq<char>)
    ensures
        lex_le(a, a),
    decreases a.len(),
{
    if a.len() > 0 {
        lemma_lex_le_reflexive(a.drop_first());
    }
}

/// Of two sequences one comes no later than the other.
pub proof fn lemma_lex_le_total(a: Seq<char>, b: Seq<char>)
    ensures
        lex_le(a, b) || lex_le(b, a),
    decreases a.len(),
{
    if a.len() > 0 && b.len() > 0 {
        if a[0] == b[0] {
            lemma_lex_le_total(a.drop_first(), b.drop_first());
        } else {
            vstd::utf8::char_u32_cast(a[0], a[0] as u32);
            vstd::utf8::char_u32_cast(b[0], b[0] as u32);
        }
    }
}

/// The lexicographic order is transitive.
pub proof fn lemma_lex_le_transitive(a: Seq<char>, b: Seq<char>, c: Seq<char>)
    requires
        lex_le(a, b),
        lex_le(b, c),
    ensures
        lex_le(a, c),
    decreases a.len(),
{
    if a.len() > 0 && b.len() > 0 && c.len() > 0 && a[0] == b[0] && b[0] == c[0] {
        lemma_lex_le_transitive(a.drop_first(), b.drop_first(), c.drop_first());
    }
}

/// Two sequences that each come no later than the other are equal.
pub proof fn lemma_lex_le_antisymmetric(a: Seq<char>, b: Seq<char>)
    requires
        lex_le(a, b),
        lex_le(b, a),
    ensures
        a == b,
    decreases a.len(),
{
    if a.len() > 0 && b.len() > 0 {
        lemma_lex_le_antisymmetric(a.drop_first(), b.drop_first());
        assert(a =~= seq![a[0]] + a.drop_first());
        assert(b =~= seq![b[0]] + b.drop_first());
    } else {
        assert(a =~= b);
    }
}

/// Joining two runs of parts that follow each other is joining each and
/// putting the separator between them.
pub proof fn lemma_join_concat(a: Seq<Seq<char>>, b: Seq<Seq<char>>, sep: Seq<char>)
    requires
        a.len() > 0,
        b.len() > 0,
    ensures
        join(a + b, sep) == join(a, sep) + sep + join(b, sep),
    decreases b.len(),
{
    let whole = a + b;
    assert(whole.drop_last() =~= a + b.drop_last());
    assert(whole.last() == b.last());
    if b.len() == 1 {
        assert(a + b.drop_last() =~= a);
        assert(join(b, sep) == b.last());
    } else {
        lemma_join_concat(a, b.drop_last(), sep);
        assert(join(whole, sep) =~= join(a, sep) + sep + join(b, sep));
    }
}

/// `String::push`: the string grows by the one character at its end.
#[verifier::external_body]
fn push_char(s: &mut String, c: char)
    ensures
        final(s)@ == old(s)@.push(c),
{
    s.push(c);
}

/// The characters of `s`, in order.
pub fn chars_of(s: &str) -> (r: Vec<char>)
    ensures
        r@ == s@,
{
    let mut out: Vec<char> = Vec::new();
    for c in it: s.chars()
        invariant
            out@ == it.seq().take(it.index()),
            it.seq() == s@,
    {
        out.push(c);
    }
    out
}

/// The string made of `chars[start..end]`.
pub fn text_of(chars: &Vec<char>, start: usize, end: usize) -> (r: String)
    requires
        start <= end <= chars.len(),
    ensures
        r@ == chars@.subrange(start as int, end as int),
{
    let mut out = String::new();
    let mut i: usize = start;
    while i < end
        invariant
            start <= i <= end <= chars.len(),
            out@ == chars@.subrange(start as int, i as int),
        decreases end - i,
    {
        push_char(&mut out, chars[i]);
        i += 1;
        assert(chars@.subrange(start as int, i as int) =~= chars@.subrange(
            start as int,
            i - 1,
        ).push(chars@[i - 1]));
    }
    out
}

/// The first position in `chars[start..end]` that holds `c`, or `end`.
pub fn find_char(chars: &Vec<char>, start: usize, end: usize, c: char) -> (i: usize)
    requires
        start <= end <= chars.len(),
    ensures
        start <= i <= end,
        i - start == index_of(chars@.subrange(start as int, end as int), c),
{
    let mut i: usize = start;
    while i < end && chars[i] != c
        invariant
            start <= i <= end <= chars.len(),
            forall|k: int| start <= k < i ==> chars@[k] != c,
        decreases end - i,
    {
        i += 1;
    }
    proof {
        lemma_index_of_is(chars@.subrange(start as int, end as int), c, i - start);
    }
    i
}

/// The bounds of `chars[start..end]` without one quote character at its
/// start and one at its end, as far as they are there.
pub fn unquote_range(chars: &Vec<char>, start: usize, end: usize) -> (r: (usize, usize))
    requires
        start <= end <= chars.len(),
    ensures
        start <= r.0 <= r.1 <= end,
        chars@.subrange(r.0 as int, r.1 as int) == unquote(
            chars@.subrange(start as int, end as int),
        ),
{
    let ghost line = chars@.subrange(start as int, end as int);
    let mut from: usize = start;
    let mut to: usize = end;
    if from < to && chars[from] == '\'' {
        from += 1;
    }
    let ghost inner = chars@.subrange(from as int, end as int);
    proof {
        if from > start {
            assert(line.drop_first() =~= inner);
        } else {
            assert(line =~= inner);
        }
    }
    if from < to && chars[to - 1] == '\'' {
        to -= 1;
    }
    proof {
        if to < end {
            assert(inner.drop_last() =~= chars@.subrange(from as int, to as int));
        }
    }
    (from, to)
}

/// Whether `c` is white space.
pub fn is_space_char(c: char) -> (r: bool)
    ensures
        r == is_space(c),
{
    let n: u32 = c as u32;
    (0x09 <= n && n <= 0x0D) || n == 0x20 || n == 0x85 || n == 0xA0 || n == 0x1680 || (0x2000 <= n
        && n <= 0x200A) || n == 0x2028 || n == 0x2029 || n == 0x202F || n == 0x205F || n == 0x3000
}

/// The bounds of `chars[start..end]` without the white space at either end.
pub fn trim_range(chars: &Vec<char>, start: usize, end: usize) -> (r: (usize, usize))
    requires
        start <= end <= chars.len(),
    ensures
        start <= r.0 <= r.1 <= end,
        chars@.subrange(r.0 as int, r.1 as int) == trim(chars@.subrange(start as int, end as int)),
{
    let mut from: usize = start;
    while from < end && is_space_char(chars[from])
        invariant
            start <= from <= end <= chars.len(),
            trim_start(chars@.subrange(start as int, end as int)) == trim_start(
                chars@.subrange(from as int, end as int),
            ),
        decreases end - from,
    {
        assert(chars@.subrange(from as int, end as int).drop_first() =~= chars@.subrange(
            from + 1,
            end as int,
        ));
        from += 1;
    }
    let mut to: usize = end;
    while from < to && is_space_char(chars[to - 1])
        invariant
            from <= to <= end <= chars.len(),
            trim_end(chars@.subrange(from as int, end as int)) == trim_end(
                chars@.subrange(from as int, to as int),
            ),
        decreases to - from,
    {
        assert(chars@.subrange(from as int, to as int).drop_last() =~= chars@.subrange(
            from as int,
            to - 1,
        ));
        to -= 1;
    }
    (from, to)
}

/// Whether `a` comes no later than `b` in the order of strings.
pub fn str_le(a: &str, b: &str) -> (r: bool)
    ensures
        r == lex_le(a@, b@),
{
    let mut left = a.chars();
    let mut right = b.chars();
    loop
        invariant
            lex_le(a@, b@) == lex_le(left.remaining(), right.remaining()),
            left.obeys_prophetic_iter_laws(),
            right.obeys_prophetic_iter_laws(),
            left.decrease() is Some,
        decreases left.decrease()->0,
    {
        let x = left.next();
        let y = right.next();
        match x {
            None => {
                return true;
            },
            Some(c) => match y {
                None => {
                    return false;
                },
                Some(d) => {
                    if c != d {
                        return (c as u32) < (d as u32);
                    }
                },
            },
        }
    }
}

/// The parts in order, with `sep` between each two neighbours.
pub fn join_strings(parts: &Vec<String>, sep: &str) -> (r: String)
    ensures
        r@ == join(parts.deep_view(), sep@),
{
    let mut out = String::new();
    let mut i: usize = 0;
    while i < parts.len()
        invariant
            i <= parts.len(),
            out@ == join(parts.deep_view().take(i as int), sep@),
        decreases parts.len() - i,
    {
        let ghost before = parts.deep_view().take(i as int);
        let ghost after = parts.deep_view().take(i + 1);
        proof {
            assert(after.drop_last() =~= before);
            assert(after.last() == parts[i as int]@);
        }
        if i > 0 {
            out.append(sep);
        }
        out.append(parts[i].as_str());
        proof {
            if i == 0 {
                assert(out@ =~= after[0]);
            }
        }
        i += 1;
    }
    proof {
        assert(parts.deep_view().take(parts.len() as int) =~= parts.deep_view());
    }
    out
}

/// The bounds of the lines of `chars` that are not empty, in order.
pub fn line_spans(chars: &Vec<char>) -> (r: Vec<(usize, usize)>)
    ensures
        r@.len() == nonempty_lines(chars@).len(),
        forall|k: int|
            0 <= k < r@.len() ==> {
                &&& (#[trigger] r@[k]).0 <= r@[k].1 <= chars.len()
                &&& chars@.subrange(r@[k].0 as int, r@[k].1 as int) == nonempty_lines(chars@)[k]
            },
{
    let mut out: Vec<(usize, usize)> = Vec::new();
    let mut start: usize = 0;
    let len = chars.len();
    let ghost mut done: Seq<Seq<char>> = Seq::empty();
    proof {
        assert(chars@.skip(0) =~= chars@);
        assert(done + nonempty_lines(chars@) =~= nonempty_lines(chars@));
    }
    while start < len
        invariant
            start <= len,
            len == chars.len(),
            nonempty_lines(chars@) == done + nonempty_lines(chars@.skip(start as int)),
            out@.len() == done.len(),
            forall|k: int|
                0 <= k < out@.len() ==> {
                    &&& (#[trigger] out@[k]).0 <= out@[k].1 <= len
                    &&& chars@.subrange(out@[k].0 as int, out@[k].1 as int) == done[k]
                },
        decreases len - start,
    {
        let end = find_char(chars, start, len, '\n');
        let ghost rest = chars@.skip(start as int);
        let ghost tail = if end < len {
            nonempty_lines(chars@.skip(end + 1))
        } else {
            Seq::empty()
        };
        proof {
            assert(rest =~= chars@.subrange(start as int, len as int));
            assert(rest.take(end - start) =~= chars@.subrange(start as int, end as int));
            if end < len {
                assert(rest.skip(end - start + 1) =~= chars@.skip(end + 1));
            } else {
                assert(chars@.skip(len as int).len() == 0);
            }
        }
        if end > start {
            out.push((start, end));
            proof {
                let line = rest.take(end - start);
                assert(nonempty_lines(rest) == seq![line] + tail);
                assert(done + (seq![line] + tail) =~= done.push(line) + tail);
                done = done.push(line);
            }
        } else {
            assert(nonempty_lines(rest) == tail);
        }
        if end < len {
            start = end + 1;
        } else {
            start = len;
        }
    }
    proof {
        assert(chars@.skip(len as int).len() == 0);
        assert(done + Seq::<Seq<char>>::empty() =~= done);
    }
    out
}

} // verus!
