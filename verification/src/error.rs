//! The ways a scan or a query can fail.

use vstd::prelude::*;

verus! {

/// Why a scan, or a query on a finished scan, failed.
#[derive(Clone, Copy, Debug, PartialEq, Eq, Structural)]
pub enum ScanError {
    /// The path does not exist.
    NotFound,
    /// The path may not be read.
    AccessDenied,
    /// A directory scan was asked of a path that is no directory.
    NotADirectory,
    /// Any other failure to read.
    IoError,
    /// A flattened view was asked of a root that has no finished scan.
    AnalysisNotFound,
}

impl ScanError {
    /// The text that describes each error.
    pub open spec fn text(self) -> Seq<char> {
        match self {
            ScanError::NotFound => "Path not found"@,
            ScanError::AccessDenied => "Access denied"@,
            ScanError::NotADirectory => "Not a directory"@,
            ScanError::IoError => "I/O error"@,
            ScanError::AnalysisNotFound => "Analysis not found"@,
        }
    }

    /// The error as text for a caller to show.
    pub fn message(&self) -> (text: String)
        ensures
            text@ == self.text(),
    {
        match self {
            ScanError::NotFound => "Path not found".to_owned(),
            ScanError::AccessDenied => "Access denied".to_owned(),
            ScanError::NotADirectory => "Not a directory".to_owned(),
            ScanError::IoError => "I/O error".to_owned(),
            ScanError::AnalysisNotFound => "Analysis not found".to_owned(),
        }
    }
}

} // verus!
