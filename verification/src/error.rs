//! The ways in which an analysis fails.

use vstd::prelude::*;

verus! {

/// Why an analysis gave no result.
#[derive(Debug, Clone, Copy, PartialEq, Eq, Structural)]
pub enum AnalysisError {
    /// The path to analyse does not exist.
    PathNotFound,
    /// The path is no directory.
    NotADirectory,
    /// No repository root lies above the path.
    NotUnderVersionControl,
    /// The history holds no record for the path.
    NoHistory,
    /// The path lies outside the repository root.
    OutsideRepository,
    /// The file has no attributable line.
    UnanalyzableFile,
    /// A timestamp is no decimal number of seconds.
    MalformedTimestamp,
    /// A timestamp is too far from the epoch to be a date.
    TimestampOutOfRange,
    /// A commit header ends before its timestamp or author.
    TruncatedHeader,
}

impl AnalysisError {
    /// The one-line message for this failure.
    pub open spec fn message_text(self) -> Seq<char> {
        match self {
            AnalysisError::PathNotFound => "path does not exist"@,
            AnalysisError::NotADirectory => "not a valid directory"@,
            AnalysisError::NotUnderVersionControl => "not inside a git repository"@,
            AnalysisError::NoHistory => "no git history found"@,
            AnalysisError::OutsideRepository => "path is outside the repository"@,
            AnalysisError::UnanalyzableFile => "no lines to analyze"@,
            AnalysisError::MalformedTimestamp => "failed to parse timestamp"@,
            AnalysisError::TimestampOutOfRange => "invalid timestamp"@,
            AnalysisError::TruncatedHeader => "commit header is incomplete"@,
        }
    }

    /// The one-line message for this failure.
    pub fn message(&self) -> (text: String)
        ensures
            text@ == self.message_text(),
    {
        match self {
            AnalysisError::PathNotFound => "path does not exist".to_owned(),
            AnalysisError::NotADirectory => "not a valid directory".to_owned(),
            AnalysisError::NotUnderVersionControl => "not inside a git repository".to_owned(),
            AnalysisError::NoHistory => "no git history found".to_owned(),
            AnalysisError::OutsideRepository => "path is outside the repository".to_owned(),
            AnalysisError::UnanalyzableFile => "no lines to analyze".to_owned(),
            AnalysisError::MalformedTimestamp => "failed to parse timestamp".to_owned(),
            AnalysisError::TimestampOutOfRange => "invalid timestamp".to_owned(),
            AnalysisError::TruncatedHeader => "commit header is incomplete".to_owned(),
        }
    }
}

} // verus!
