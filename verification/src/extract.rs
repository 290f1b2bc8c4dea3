//! Issue keys: what a commit message says of the issue it belongs to, read
//! either off the text before the first pipe or off the first match of a
//! regular expression.

use crate::date::Date;
use crate::error::WorklogError;
use crate::models::CommandOutput;
use crate::models::Entry;
use crate::models::Record;
use crate::text::chars_of;
use crate::text::find_char;
use crate::text::index_of;
use crate::text::text_of;
use crate::text::trim;
use crate::text::trim_range;
use regex::Regex;
use vstd::prelude::*;

verus! {

/// Whether `regex::Regex::new` accepts `pattern`.
pub uninterp spec fn pattern_compiles(pattern: Seq<char>) -> bool;

/// The text of the match that `regex::Regex::find` returns for `text` under
/// the regular expression compiled from `pattern`, or `None` where it finds
/// no match.
pub uninterp spec fn first_match(pattern: Seq<char>, text: Seq<char>) -> Option<Seq<char>>;

/// The characters of a text that may be absent.
pub open spec fn optional_text(found: Option<String>) -> Option<Seq<char>> {
    match found {
        Some(text) => Some(text@),
        None => None,
    }
}

/// Compiles `pattern` with `regex::Regex::new` and searches `text` with
/// `regex::Regex::find`. The outer `None` stands for a pattern that does not
/// compile, the inner one for a search without a match. Nothing is claimed
/// of either but that it is what these two calls give for this pattern and
/// text.
#[verifier::external_body]
fn find_first(pattern: &str, text: &str) -> (r: Option<Option<String>>)
    ensures
        r is Some <==> pattern_compiles(pattern@),
        r matches Some(found) ==> optional_text(found) == first_match(pattern@, text@),
{
    match Regex::new(pattern) {
        Ok(re) => match re.find(text) {
            Some(m) => Some(Some(m.as_str().to_string())),
            None => Some(None),
        },
        Err(_) => None,
    }
}

/// Whether an optional pattern can be used: none can, and one that compiles.
pub open spec fn usable(pattern: Option<Seq<char>>) -> bool {
    pattern matches Some(p) ==> pattern_compiles(p)
}

/// The issue key under the delimiter convention: what stands before the
/// first pipe of the message, or the whole message where it has no pipe,
/// without the white space around it.
pub open spec fn delimiter_key(message: Seq<char>) -> Seq<char> {
    trim(message.take(index_of(message, '|')))
}

/// The issue key that a search gives: the match, or the empty key where
/// there was none.
pub open spec fn matched_key(found: Option<Seq<char>>) -> Seq<char> {
    match found {
        Some(text) => text,
        None => Seq::empty(),
    }
}

/// The issue key of a commit message: under a pattern the first match, or
/// the empty key where nothing matches; without one the key of the delimiter
/// convention.
pub open spec fn issue_key(pattern: Option<Seq<char>>, message: Seq<char>) -> Seq<char> {
    match pattern {
        None => delimiter_key(message),
        Some(p) => matched_key(first_match(p, message)),
    }
}

/// The entry that a record counts towards: its issue key on its date.
pub open spec fn entry_of(pattern: Option<Seq<char>>, record: Record) -> Entry {
    Entry { date: record.date, issue: issue_key(pattern, record.message) }
}

/// How issue keys are read off commit messages: by the delimiter convention,
/// or by a regular expression that is known to compile.
pub struct Extractor {
    pattern: Option<String>,
}

impl Extractor {
    #[verifier::type_invariant]
    spec fn well_formed(&self) -> bool {
        self.pattern matches Some(p) ==> pattern_compiles(p@)
    }

    /// The regular expression in use, or `None` under the delimiter
    /// convention.
    pub closed spec fn pattern(&self) -> Option<Seq<char>> {
        match self.pattern {
            Some(p) => Some(p@),
            None => None,
        }
    }

    /// The issue key of a commit message.
    pub open spec fn key(&self, message: Seq<char>) -> Seq<char> {
        issue_key(self.pattern(), message)
    }

    /// The extractor of the delimiter convention.
    pub fn delimiter() -> (r: Extractor)
        ensures
            r.pattern() is None,
    {
        Extractor { pattern: None }
    }

    /// The extractor that searches for `pattern`, where it is a regular
    /// expression.
    pub fn with_pattern(pattern: &str) -> (r: Result<Extractor, WorklogError>)
        ensures
            pattern_compiles(pattern@) ==> r is Ok && r->Ok_0.pattern() == Some(pattern@),
            !pattern_compiles(pattern@) ==> r is Err && r->Err_0 == WorklogError::InvalidPattern,
    {
        match find_first(pattern, "") {
            Some(_) => Ok(Extractor { pattern: Some(pattern.to_owned()) }),
            None => Err(WorklogError::InvalidPattern),
        }
    }

    /// The extractor for an optional pattern: the delimiter convention where
    /// there is none.
    pub fn new(pattern: &Option<String>) -> (r: Result<Extractor, WorklogError>)
        ensures
            usable(optional_text(*pattern)) ==> r is Ok && r->Ok_0.pattern() == optional_text(
                *pattern,
            ),
            !usable(optional_text(*pattern)) ==> r is Err && r->Err_0
                == WorklogError::InvalidPattern,
    {
        match pattern {
            None => Ok(Extractor::delimiter()),
            Some(p) => Extractor::with_pattern(p.as_str()),
        }
    }

    /// The issue key of `message`.
    pub fn issue_key(&self, message: &str) -> (r: String)
        ensures
            r@ == self.key(message@),
    {
        proof {
            use_type_invariant(self);
        }
        match &self.pattern {
            None => delimiter_issue(message),
            Some(p) => match find_first(p.as_str(), message) {
                Some(found) => key_of_match(found),
                None => String::new(),
            },
        }
    }
}

/// The issue key that a search gives: the match, or the empty key where
/// there was none.
pub fn key_of_match(found: Option<String>) -> (r: String)
    ensures
        r@ == matched_key(optional_text(found)),
{
    match found {
        Some(text) => text,
        None => String::new(),
    }
}

/// The issue key of `message` under the delimiter convention.
pub fn delimiter_issue(message: &str) -> (r: String)
    ensures
        r@ == delimiter_key(message@),
{
    let chars = chars_of(message);
    let bar = find_char(&chars, 0, chars.len(), '|');
    let (from, to) = trim_range(&chars, 0, bar);
    proof {
        assert(chars@.subrange(0, chars.len() as int) =~= message@);
        assert(chars@.subrange(0, bar as int) =~= message@.take(bar as int));
    }
    text_of(&chars, from, to)
}

/// The issue key of a record, and the record's date.
pub fn extract_issue_from_msg(command_log: &CommandOutput, extractor: &Extractor) -> (r: (
    String,
    Date,
))
    ensures
        r.0@ == extractor.key(command_log.message@),
        r.1 == command_log.date,
{
    (extractor.issue_key(command_log.message.as_str()), command_log.date)
}

} // verus!
