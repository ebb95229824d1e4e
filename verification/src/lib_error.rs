//! Errors of the library.
use vstd::prelude::*;

verus! {

/// A failure while searching.
#[derive(Debug, PartialEq, Eq, Structural)]
pub enum SearchError {
    /// A directory entry's name is not valid UTF-8.
    FailedToGetFileName,
}

impl SearchError {
    /// The human-readable description of the error.
    pub fn message(&self) -> (m: &'static str)
        ensures
            m@ == "failed to get file name"@,
    {
        match self {
            SearchError::FailedToGetFileName => "failed to get file name",
        }
    }
}

/// A reason why a search configuration cannot be built.
#[derive(Debug, PartialEq, Eq, Structural)]
pub enum CreateConfigError {
    /// No search string was given.
    MissingSearchStrs,
    /// A file name search anchored at the start of the name takes exactly one
    /// search string.
    TooManySearchStrs,
}

} // verus!
