//! The search coordinator: it checks a request, compiles its pattern and
//! globs, and opens the search. The caller then runs the walk: it asks for
//! directories to list, hands the listings in, scans the files that come
//! back and offers their results.

use vstd::prelude::*;
use crate::content::{file_matches, search_bytes};
use crate::error::SearchError;
use crate::filter::{filter_model, globs_compile, globs_of, name_search_model, PathFilter};
use crate::options::SearchOptions;
use crate::pattern::{
    effective_pattern, line_pattern_valid, name_pattern_valid, text_is_match, LinePattern, NamePattern,
};
use crate::results::{PathAggregator, ResultAggregator, ResultModel, SearchResult};
use crate::walk::{initial_walk, quiescent, Candidate, Traverser};

verus! {

/// What the caller found at the root path of a search.
#[derive(Clone, Copy, Debug, PartialEq, Eq, Structural)]
pub enum RootStatus {
    /// Nothing is there.
    Missing,
    /// Something is there, but not a directory.
    NotDirectory,
    /// A directory.
    Directory,
}

/// The options that hold where a request names none.
pub open spec fn default_options() -> SearchOptions {
    SearchOptions {
        case_sensitive: None,
        include_hidden: None,
        disable_ignore: None,
        disable_gitignore: None,
        max_depth: None,
        include_patterns: None,
        exclude_patterns: None,
    }
}

/// The options of a request.
pub open spec fn options_or_default(options: Option<SearchOptions>) -> SearchOptions {
    match options {
        Some(o) => o,
        None => default_options(),
    }
}

/// Whether a request asks to match without regard to case.
pub open spec fn folds_case(options: SearchOptions) -> bool {
    options.case_sensitive == Some(false)
}

/// How a content search request fares: the error it fails with, if any.
/// A pattern or glob that does not compile comes before a bad root.
pub open spec fn content_request_error(
    root: RootStatus,
    pattern: Seq<char>,
    options: SearchOptions,
) -> Option<SearchError> {
    if !line_pattern_valid(effective_pattern(pattern, folds_case(options))) {
        Some(SearchError::InvalidPattern)
    } else if !globs_compile(globs_of(options.include_patterns)) || !globs_compile(
        globs_of(options.exclude_patterns),
    ) {
        Some(SearchError::InvalidPattern)
    } else if root != RootStatus::Directory {
        Some(SearchError::PathNotFound)
    } else {
        None
    }
}

/// How a file name search request fares: the error it fails with, if any.
pub open spec fn name_request_error(root: RootStatus, pattern: Seq<char>) -> Option<SearchError> {
    if !name_pattern_valid(pattern) {
        Some(SearchError::InvalidPattern)
    } else if root != RootStatus::Directory {
        Some(SearchError::PathNotFound)
    } else {
        None
    }
}

/// A content search that is under way.
pub struct ContentSearch {
    /// The compiled pattern; it never changes and may be shared.
    pub pattern: LinePattern,
    /// The walk: which directories to list, which files to scan.
    pub walk: Traverser,
    /// The results so far.
    pub results: ResultAggregator,
}

impl ContentSearch {
    /// The search's invariant.
    pub open spec fn wf(&self) -> bool {
        self.walk.wf() && self.results.wf()
    }

    /// The result of one candidate whose file holds `bytes`: its canonical
    /// path with the matches of the bytes.
    pub fn scan(&self, candidate: &Candidate, bytes: &[u8]) -> (r: SearchResult)
        ensures
            r@ == (ResultModel {
                file_path: candidate.real_path@,
                matches: file_matches(self.pattern.source(), bytes@),
            }),
    {
        SearchResult {
            file_path: candidate.real_path.clone(),
            matches: search_bytes(&self.pattern, bytes),
        }
    }

    /// Ends the search and gives its results. Fails with `Internal` if the
    /// walk is not over.
    pub fn finish(self) -> (r: Result<Vec<SearchResult>, SearchError>)
        requires
            self.wf(),
        ensures
            match r {
                Ok(found) => quiescent(self.walk@) && crate::results::result_models(found@)
                    == self.results@ && crate::results::results_ok(self.results@),
                Err(e) => !quiescent(self.walk@) && e == SearchError::Internal,
            },
    {
        if !self.walk.is_quiescent() {
            return Err(SearchError::Internal);
        }
        Ok(self.results.finalize())
    }
}

/// A file name search that is under way.
pub struct FileSearch {
    /// The compiled pattern; it never changes and may be shared.
    pub pattern: NamePattern,
    /// The walk: which directories to list, which files to consider.
    pub walk: Traverser,
    /// The paths found so far.
    pub files: PathAggregator,
}

impl FileSearch {
    /// The search's invariant.
    pub open spec fn wf(&self) -> bool {
        self.walk.wf() && self.files.wf()
    }

    /// Considers one candidate: if the pattern matches its name, its
    /// canonical path joins the paths found. Returns whether it did. Fails
    /// with `Internal`, and changes nothing, if the name matches and the
    /// path is already held.
    pub fn consider(&mut self, candidate: &Candidate) -> (r: Result<bool, SearchError>)
        requires
            old(self).wf(),
        ensures
            final(self).wf(),
            final(self).walk == old(self).walk,
            final(self).pattern == old(self).pattern,
            match r {
                Ok(taken) => {
                    &&& taken == text_is_match(old(self).pattern.source(), candidate.name@)
                    &&& taken ==> !old(self).files@.contains(candidate.real_path@)
                    &&& final(self).files@ == if taken {
                        old(self).files@.push(candidate.real_path@)
                    } else {
                        old(self).files@
                    }
                },
                Err(e) => {
                    &&& e == SearchError::Internal
                    &&& text_is_match(old(self).pattern.source(), candidate.name@)
                    &&& old(self).files@.contains(candidate.real_path@)
                    &&& final(self).files@ == old(self).files@
                },
            },
    {
        if self.pattern.matches_name(candidate.name.as_str()) {
            match self.files.accept(candidate.real_path.clone()) {
                Ok(()) => Ok(true),
                Err(e) => Err(e),
            }
        } else {
            Ok(false)
        }
    }

    /// Ends the search and gives the paths found. Fails with `Internal` if
    /// the walk is not over.
    pub fn finish(self) -> (r: Result<Vec<String>, SearchError>)
        requires
            self.wf(),
        ensures
            match r {
                Ok(found) => quiescent(self.walk@) && crate::rules::texts(found@) == self.files@
                    && crate::results::paths_distinct(self.files@),
                Err(e) => !quiescent(self.walk@) && e == SearchError::Internal,
            },
    {
        if !self.walk.is_quiescent() {
            return Err(SearchError::Internal);
        }
        Ok(self.files.finalize())
    }
}

/// The search engine.
pub struct SearchEngine;

impl SearchEngine {
    /// An engine. It holds nothing: every search stands for itself.
    pub fn new() -> (r: Self) {
        SearchEngine
    }

    /// Opens a content search for `pattern` below the root whose status and
    /// canonical path the caller found.
    ///
    /// Fails with `InvalidPattern` if the pattern or a glob does not
    /// compile, else with `PathNotFound` if the root is not a directory.
    /// Otherwise the search is open: the root waits to be listed and no
    /// result is held.
    pub fn search_pattern(
        &self,
        root: RootStatus,
        root_real_path: String,
        pattern: String,
        options: Option<SearchOptions>,
    ) -> (r: Result<ContentSearch, SearchError>)
        ensures
            match r {
                Ok(s) => {
                    &&& content_request_error(root, pattern@, options_or_default(options)) is None
                    &&& s.wf()
                    &&& s.pattern.source() == effective_pattern(
                        pattern@,
                        folds_case(options_or_default(options)),
                    )
                    &&& s.walk@ == initial_walk(
                        filter_model(options_or_default(options)),
                        root_real_path@,
                    )
                    &&& s.results@ == Seq::<ResultModel>::empty()
                },
                Err(e) => content_request_error(root, pattern@, options_or_default(options)) == Some(
                    e,
                ),
            },
    {
        let opts = match options {
            Some(o) => o,
            None => SearchOptions::default(),
        };
        proof {
            assert(filter_model(opts) == filter_model(options_or_default(options)));
        }
        let fold_case = match opts.case_sensitive {
            Some(b) => !b,
            None => false,
        };
        let compiled = match LinePattern::compile_with(pattern.as_str(), fold_case) {
            Some(p) => p,
            None => {
                return Err(SearchError::InvalidPattern);
            },
        };
        let filter = match PathFilter::new(&opts) {
            Ok(f) => f,
            Err(e) => {
                return Err(e);
            },
        };
        if root != RootStatus::Directory {
            return Err(SearchError::PathNotFound);
        }
        Ok(
            ContentSearch {
                pattern: compiled,
                walk: Traverser::new(filter, root_real_path),
                results: ResultAggregator::new(),
            },
        )
    }

    /// Opens a search for files whose name matches `file_pattern` below the
    /// root whose status and canonical path the caller found. The search
    /// takes no options: hidden entries are shut out, and `.ignore` and
    /// `.gitignore` files are read, as in a content search without options.
    ///
    /// Fails with `InvalidPattern` if the pattern does not compile, else
    /// with `PathNotFound` if the root is not a directory.
    pub fn search_files(&self, root: RootStatus, root_real_path: String, file_pattern: String) -> (r:
        Result<FileSearch, SearchError>)
        ensures
            match r {
                Ok(s) => {
                    &&& name_request_error(root, file_pattern@) is None
                    &&& s.wf()
                    &&& s.pattern.source() == file_pattern@
                    &&& s.walk@ == initial_walk(name_search_model(), root_real_path@)
                    &&& s.files@ == Seq::<Seq<char>>::empty()
                },
                Err(e) => name_request_error(root, file_pattern@) == Some(e),
            },
    {
        let compiled = match NamePattern::compile(file_pattern.as_str()) {
            Some(p) => p,
            None => {
                return Err(SearchError::InvalidPattern);
            },
        };
        if root != RootStatus::Directory {
            return Err(SearchError::PathNotFound);
        }
        Ok(
            FileSearch {
                pattern: compiled,
                walk: Traverser::new(PathFilter::for_file_names(), root_real_path),
                files: PathAggregator::new(),
            },
        )
    }
}

} // verus!
