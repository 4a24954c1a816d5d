//! Search over a directory tree: content search by regular expression with
//! line and offset reporting, and file name search, under hidden-name,
//! ignore-file, depth and glob rules.
//!
//! The library decides and computes; it never touches the file system. A
//! caller lists directories and reads files, and hands the library what it
//! found as plain values.
//!
//! * [`engine`] checks a request and opens a search.
//! * [`walk`] decides which entries take part, which directories are
//!   entered and when the walk is over.
//! * [`filter`] and [`rules`] hold the rules by which entries are shut out.
//! * [`content`] finds the matching lines of a file; [`pattern`] holds the
//!   compiled expressions.
//! * [`results`] gathers the results of all files.
//! * [`snapshot`] runs a whole search over a tree held in memory; [`reach`]
//!   states what such a search reaches.
//! * [`stats`] and [`context`] serve the components around the search:
//!   counters of operations, and a bounded store of prepared contexts.

use vstd::prelude::*;

pub mod content;
pub mod context;
pub mod engine;
pub mod error;
pub mod filter;
pub mod options;
pub mod pattern;
pub mod reach;
pub mod results;
pub mod rules;
pub mod snapshot;
pub mod stats;
pub mod walk;

pub use content::Match;
pub use engine::SearchEngine;
pub use error::SearchError;
pub use options::SearchOptions;
pub use results::SearchResult;
pub use stats::{OperationType, PerformanceMonitor};

verus! {

/// Handle of the component set as a whole.
pub struct CmdShiftAI;

impl CmdShiftAI {
    /// The handle.
    pub fn new() -> (r: Self) {
        CmdShiftAI
    }

    /// The version of the component set.
    pub fn get_version(&self) -> (r: String)
        ensures
            r@ == "1.0.0"@,
    {
        "1.0.0".to_string()
    }
}

} // verus!
