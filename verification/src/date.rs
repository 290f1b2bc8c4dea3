use crate::error::WorklogError;
use chrono::Datelike;
use chrono::NaiveDate;
use std::str::FromStr;
use vstd::prelude::*;

verus! {

/// A calendar date without a time of day, held as year, month and day.
#[derive(Clone, Copy, Debug, PartialEq, Eq, Structural)]
pub struct Date {
    pub year: i32,
    pub month: u32,
    pub day: u32,
}

/// The format in which a history line carries its date.
pub open spec fn line_date_format() -> Seq<char> {
    "%Y-%m-%d"@
}

/// What `chrono::NaiveDate::parse_from_str` makes of `text` under `format`:
/// the year, month and day of the date it returns, or `None` where it
/// returns an error.
pub uninterp spec fn date_in_format(text: Seq<char>, format: Seq<char>) -> Option<Date>;

/// What `NaiveDate`'s `FromStr` makes of `text`: the year, month and day of
/// the date it returns, or `None` where it returns an error.
pub uninterp spec fn date_from_text(text: Seq<char>) -> Option<Date>;

/// Calls `chrono::NaiveDate::parse_from_str(text, format)` and reads the
/// year, month and day off the date. Nothing is claimed of the result but
/// that it is the one this call gives for this text and format.
#[verifier::external_body]
fn parse_in_format(text: &str, format: &str) -> (r: Option<Date>)
    ensures
        r == date_in_format(text@, format@),
{
    match NaiveDate::parse_from_str(text, format) {
        Ok(d) => Some(Date { year: d.year(), month: d.month(), day: d.day() }),
        Err(_) => None,
    }
}

/// Calls `<chrono::NaiveDate as FromStr>::from_str(text)` and reads the year,
/// month and day off the date. Nothing is claimed of the result but that it
/// is the one this call gives for this text.
#[verifier::external_body]
fn parse_text(text: &str) -> (r: Option<Date>)
    ensures
        r == date_from_text(text@),
{
    match NaiveDate::from_str(text) {
        Ok(d) => Some(Date { year: d.year(), month: d.month(), day: d.day() }),
        Err(_) => None,
    }
}

impl Date {
    /// Whether `self` is `other` or an earlier day.
    pub open spec fn le(self, other: Date) -> bool {
        if self.year != other.year {
            self.year < other.year
        } else if self.month != other.month {
            self.month < other.month
        } else {
            self.day <= other.day
        }
    }

    /// Whether `self` is `other` or an earlier day.
    pub fn not_after(&self, other: &Date) -> (r: bool)
        ensures
            r == self.le(*other),
    {
        if self.year != other.year {
            self.year < other.year
        } else if self.month != other.month {
            self.month < other.month
        } else {
            self.day <= other.day
        }
    }

    /// The date that a parser found, or `error` where it found none.
    pub fn from_parsed(parsed: Option<Date>, error: WorklogError) -> (r: Result<Date, WorklogError>)
        ensures
            r == Date::or_error(parsed, error),
    {
        match parsed {
            Some(date) => Ok(date),
            None => Err(error),
        }
    }

    /// `Ok` of the date in `parsed`, `Err(error)` where there is none.
    pub open spec fn or_error(parsed: Option<Date>, error: WorklogError) -> Result<
        Date,
        WorklogError,
    > {
        match parsed {
            Some(date) => Ok(date),
            None => Err(error),
        }
    }

    /// Reads the date field of a history line, written as `YYYY-MM-DD`.
    pub fn parse_line_date(text: &str) -> (r: Result<Date, WorklogError>)
        ensures
            r == Date::or_error(
                date_in_format(text@, line_date_format()),
                WorklogError::WrongDateFormat,
            ),
    {
        Date::from_parsed(parse_in_format(text, "%Y-%m-%d"), WorklogError::WrongDateFormat)
    }

    /// Reads the minimum date of a configuration.
    pub fn parse_min_date(text: &str) -> (r: Result<Date, WorklogError>)
        ensures
            r == Date::or_error(date_from_text(text@), WorklogError::InvalidMinDate),
    {
        Date::from_parsed(parse_text(text), WorklogError::InvalidMinDate)
    }
}

/// The order of dates is total.
pub proof fn lemma_date_le_total(a: Date, b: Date)
    ensures
        a.le(b) || b.le(a),
{
}

/// The order of dates is transitive.
pub proof fn lemma_date_le_transitive(a: Date, b: Date, c: Date)
    requires
        a.le(b),
        b.le(c),
    ensures
        a.le(c),
{
}

/// Two dates that each come no later than the other are the same date.
pub proof fn lemma_date_le_antisymmetric(a: Date, b: Date)
    requires
        a.le(b),
        b.le(a),
    ensures
        a == b,
{
}

} // verus!
