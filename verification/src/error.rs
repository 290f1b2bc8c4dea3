use vstd::prelude::*;

verus! {

/// Why a run was abandoned. Every variant is an input-format error: the
/// whole run fails, nothing is skipped.
#[derive(Clone, Copy, Debug, PartialEq, Eq, Structural)]
pub enum WorklogError {
    /// A history line holds no comma, so it has no message field.
    NoMessage,
    /// A history line holds a single comma, so it has no author field.
    NoAuthor,
    /// The date field of a history line is not a date.
    WrongDateFormat,
    /// The minimum date of the configuration is not a date.
    InvalidMinDate,
    /// The issue pattern of the configuration is not a regular expression.
    InvalidPattern,
}

impl WorklogError {
    /// A message for the operator, naming the stage that failed.
    pub fn message(&self) -> (r: &'static str)
        ensures
            r@ == self.message_spec(),
    {
        match self {
            WorklogError::NoMessage => "No message found",
            WorklogError::NoAuthor => "No author found",
            WorklogError::WrongDateFormat => "Wrong date format",
            WorklogError::InvalidMinDate => "Error parsing the date",
            WorklogError::InvalidPattern => "Invalid regex pattern",
        }
    }

    /// The text of [`WorklogError::message`].
    pub open spec fn message_spec(&self) -> Seq<char> {
        match self {
            WorklogError::NoMessage => "No message found"@,
            WorklogError::NoAuthor => "No author found"@,
            WorklogError::WrongDateFormat => "Wrong date format"@,
            WorklogError::InvalidMinDate => "Error parsing the date"@,
            WorklogError::InvalidPattern => "Invalid regex pattern"@,
        }
    }
}

} // verus!
