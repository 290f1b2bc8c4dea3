//! Worklog extraction: commit history lines are parsed into records, filtered
//! by author and start date, reduced to one entry per issue and day, merged
//! across repositories and collapsed to one row per day.

pub mod date;
pub mod error;
pub mod extract;
pub mod grouping;
pub mod models;
pub mod pipeline;
pub mod sorting;
pub mod text;
