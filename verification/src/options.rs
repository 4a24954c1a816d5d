//! What a caller may ask of a search.

use vstd::prelude::*;

verus! {

/// The options of a content search. A field left out takes its default.
#[derive(Clone, Debug)]
pub struct SearchOptions {
    /// `Some(false)` makes the pattern match without regard to case; the
    /// default is to match case as written.
    pub case_sensitive: Option<bool>,
    /// Whether entries whose name starts with a dot take part. Default: no.
    pub include_hidden: Option<bool>,
    /// Whether `.ignore` files are left unread. Default: no.
    pub disable_ignore: Option<bool>,
    /// Whether `.gitignore` files are left unread. Default: no.
    pub disable_gitignore: Option<bool>,
    /// How far below the root's own entries the search goes: 0 stays with
    /// them. Left out or negative: no limit.
    pub max_depth: Option<i32>,
    /// If not empty, only files selected by these globs take part.
    pub include_patterns: Option<Vec<String>>,
    /// Entries selected by these globs never take part.
    pub exclude_patterns: Option<Vec<String>>,
}

impl Default for SearchOptions {
    fn default() -> (r: Self)
        ensures
            r.case_sensitive is None,
            r.include_hidden is None,
            r.disable_ignore is None,
            r.disable_gitignore is None,
            r.max_depth is None,
            r.include_patterns is None,
            r.exclude_patterns is None,
    {
        SearchOptions {
            case_sensitive: None,
            include_hidden: None,
            disable_ignore: None,
            disable_gitignore: None,
            max_depth: None,
            include_patterns: None,
            exclude_patterns: None,
        }
    }
}

/// The value of a switch that may be left out.
pub open spec fn flag_or(flag: Option<bool>, default: bool) -> bool {
    match flag {
        Some(b) => b,
        None => default,
    }
}

/// The value of a switch that may be left out.
pub fn flag_value(flag: Option<bool>, default: bool) -> (r: bool)
    ensures
        r == flag_or(flag, default),
{
    match flag {
        Some(b) => b,
        None => default,
    }
}

/// The depth limit that `max_depth` asks for: none if it is left out or
/// negative.
pub open spec fn depth_limit_of(max_depth: Option<i32>) -> Option<nat> {
    match max_depth {
        Some(d) if d >= 0 => Some(d as nat),
        _ => None,
    }
}

/// The depth limit that `max_depth` asks for.
pub fn depth_limit(max_depth: Option<i32>) -> (r: Option<usize>)
    ensures
        r is Some == depth_limit_of(max_depth) is Some,
        r matches Some(d) ==> depth_limit_of(max_depth) == Some(d as nat),
{
    match max_depth {
        Some(d) => {
            if d >= 0 {
                Some(d as usize)
            } else {
                None
            }
        },
        None => None,
    }
}

} // verus!
