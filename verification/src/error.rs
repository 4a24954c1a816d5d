//! The ways a search can fail.

use vstd::prelude::*;

verus! {

/// Why a search did not produce a result set.
#[derive(Clone, Copy, Debug, PartialEq, Eq, Structural)]
pub enum SearchError {
    /// The regular expression or a glob does not compile.
    InvalidPattern,
    /// The root is missing or is not a directory.
    PathNotFound,
    /// A file or directory could not be read. Never returned by a search:
    /// the file is skipped.
    Io,
    /// The traversal or the result set was used against its protocol.
    Internal,
}

impl SearchError {
    /// A short text for the error, for hosts that report strings.
    pub fn message(&self) -> (r: String)
        ensures
            r@ == Self::message_text(*self),
    {
        match self {
            SearchError::InvalidPattern => "Invalid pattern".to_string(),
            SearchError::PathNotFound => "Path not found".to_string(),
            SearchError::Io => "I/O failure".to_string(),
            SearchError::Internal => "Internal error".to_string(),
        }
    }

    /// The text of each error.
    pub open spec fn message_text(e: SearchError) -> Seq<char> {
        match e {
            SearchError::InvalidPattern => "Invalid pattern"@,
            SearchError::PathNotFound => "Path not found"@,
            SearchError::Io => "I/O failure"@,
            SearchError::Internal => "Internal error"@,
        }
    }
}

} // verus!
