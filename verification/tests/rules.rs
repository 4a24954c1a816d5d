use cmdshiftai::engine::{RootStatus, SearchEngine};
use cmdshiftai::error::SearchError;
use cmdshiftai::filter::{hidden_name, PathFilter};
use cmdshiftai::options::{depth_limit, flag_value, SearchOptions};
use cmdshiftai::results::{PathAggregator, ResultAggregator, SearchResult};
use cmdshiftai::rules::{RuleSet, Verdict};
use cmdshiftai::walk::join_path;
use cmdshiftai::CmdShiftAI;

fn lines(ls: &[&str]) -> Vec<String> {
    ls.iter().map(|l| l.to_string()).collect()
}

#[test]
fn version_is_reported() {
    assert_eq!(CmdShiftAI::new().get_version(), "1.0.0");
}

#[test]
fn errors_have_a_text() {
    assert_eq!(SearchError::InvalidPattern.message(), "Invalid pattern");
    assert_eq!(SearchError::PathNotFound.message(), "Path not found");
    assert_eq!(SearchError::Io.message(), "I/O failure");
    assert_eq!(SearchError::Internal.message(), "Internal error");
}

#[test]
fn default_options_name_nothing() {
    let o = SearchOptions::default();
    assert!(o.case_sensitive.is_none());
    assert!(o.include_hidden.is_none());
    assert!(o.disable_ignore.is_none());
    assert!(o.disable_gitignore.is_none());
    assert!(o.max_depth.is_none());
    assert!(o.include_patterns.is_none());
    assert!(o.exclude_patterns.is_none());
}

#[test]
fn flags_and_depth_limits_have_defaults() {
    assert!(flag_value(None, true));
    assert!(!flag_value(None, false));
    assert!(flag_value(Some(true), false));
    assert!(!flag_value(Some(false), true));
    assert_eq!(depth_limit(None), None);
    assert_eq!(depth_limit(Some(-5)), None);
    assert_eq!(depth_limit(Some(0)), Some(0));
    assert_eq!(depth_limit(Some(7)), Some(7));
    assert_eq!(depth_limit(Some(i32::MAX)), Some(2147483647));
}

#[test]
fn rule_set_gives_the_verdict_of_the_last_rule_that_applies() {
    let set = RuleSet::compile("", &lines(&["*.log", "!keep.log", "build/"]), true).unwrap();
    assert_eq!(set.matched("a.log", false), Verdict::Selected);
    assert_eq!(set.matched("sub/a.log", false), Verdict::Selected);
    assert_eq!(set.matched("keep.log", false), Verdict::Exempted);
    assert_eq!(set.matched("a.txt", false), Verdict::Unmatched);
    assert_eq!(set.matched("build", true), Verdict::Selected);
    assert_eq!(set.matched("build", false), Verdict::Unmatched);
}

#[test]
fn rule_set_is_relative_to_its_directory() {
    let set = RuleSet::compile("sub", &lines(&["/top.txt", "any.txt"]), true).unwrap();
    assert_eq!(set.matched("sub/top.txt", false), Verdict::Selected);
    assert_eq!(set.matched("sub/deep/top.txt", false), Verdict::Unmatched);
    assert_eq!(set.matched("sub/deep/any.txt", false), Verdict::Selected);
}

#[test]
fn strict_rule_set_fails_on_an_invalid_line() {
    assert!(RuleSet::compile(".", &lines(&["ok", "a{b"]), true).is_none());
    let lenient = RuleSet::compile(".", &lines(&["a{b", "ok"]), false).unwrap();
    assert_eq!(lenient.matched("ok", false), Verdict::Selected);
    assert_eq!(lenient.matched("a{b", false), Verdict::Unmatched);
}

#[test]
fn empty_rule_set_matches_nothing() {
    let set = RuleSet::compile(".", &lines(&["# only a comment", ""]), true).unwrap();
    assert_eq!(set.matched("anything", false), Verdict::Unmatched);
}

#[test]
fn hidden_names_start_with_a_dot() {
    assert!(hidden_name(".git"));
    assert!(hidden_name("."));
    assert!(!hidden_name("a.b"));
    assert!(!hidden_name(""));
    assert!(!hidden_name("\u{e9}.txt"));
}

#[test]
fn paths_are_joined_with_a_slash() {
    assert_eq!(join_path("", "a.txt"), "a.txt");
    assert_eq!(join_path("sub", "a.txt"), "sub/a.txt");
    assert_eq!(join_path("a/b", "c"), "a/b/c");
}

#[test]
fn filter_decides_by_every_rule() {
    let f = PathFilter::new(&SearchOptions::default()).unwrap();
    let u = Verdict::Unmatched;
    let s = Verdict::Selected;
    let e = Verdict::Exempted;
    assert!(f.decide(false, u, u, 0, false, u, u));
    assert!(!f.decide(true, u, u, 0, false, u, u));
    assert!(!f.decide(false, s, u, 0, false, u, u));
    assert!(!f.decide(false, u, s, 0, true, u, u));
    assert!(f.decide(false, e, e, 1000, true, u, u));
    // No globs were given: what they would say does not count.
    assert!(f.decide(false, u, u, 0, false, u, s));
    assert!(f.uses_ignore_files());
    assert!(f.uses_gitignore());
    assert_eq!(f.depth_limit(), None);

    let mut o = SearchOptions::default();
    o.include_hidden = Some(true);
    o.disable_ignore = Some(true);
    o.disable_gitignore = Some(true);
    o.max_depth = Some(2);
    o.include_patterns = Some(lines(&["*.txt"]));
    o.exclude_patterns = Some(lines(&["*_skip.txt"]));
    let f = PathFilter::new(&o).unwrap();
    assert!(f.decide(true, s, s, 2, false, s, u));
    assert!(!f.decide(true, s, s, 3, false, s, u));
    assert!(!f.decide(false, u, u, 0, false, u, u));
    assert!(f.decide(false, u, u, 0, true, u, u));
    assert!(!f.decide(false, u, u, 0, false, s, s));
    assert!(!f.decide(false, u, u, 0, true, s, s));
    assert!(!f.decide(false, u, u, 0, false, e, u));
    assert!(!f.uses_ignore_files());
    assert!(!f.uses_gitignore());
    assert_eq!(f.depth_limit(), Some(2));
}

#[test]
fn filter_applies_its_globs_to_paths() {
    let mut o = SearchOptions::default();
    o.include_patterns = Some(lines(&["*.txt"]));
    o.exclude_patterns = Some(lines(&["*_skip.txt", "vendor"]));
    let f = PathFilter::new(&o).unwrap();
    let u = Verdict::Unmatched;
    assert!(f.eligible("a.txt", "a.txt", false, 0, u, u));
    assert!(f.eligible("a.txt", "deep/down/a.txt", false, 2, u, u));
    assert!(!f.eligible("a_skip.txt", "a_skip.txt", false, 0, u, u));
    assert!(!f.eligible("a.md", "a.md", false, 0, u, u));
    assert!(f.eligible("docs", "docs", true, 0, u, u));
    assert!(!f.eligible("vendor", "lib/vendor", true, 1, u, u));
    assert!(!f.eligible(".a.txt", ".a.txt", false, 0, u, u));
}

#[test]
fn filter_of_a_name_search() {
    let f = PathFilter::for_file_names();
    let u = Verdict::Unmatched;
    let s = Verdict::Selected;
    assert!(!f.eligible(".hidden", ".hidden", false, 0, u, u));
    assert!(f.eligible("a", "a", false, 50, u, u));
    assert!(!f.eligible("a", "a", false, 50, s, u));
    assert!(!f.eligible("a", "a", false, 0, u, s));
    assert!(f.eligible("sub", "deep/sub", true, 7, u, u));
    assert!(f.uses_ignore_files());
    assert!(f.uses_gitignore());
    assert_eq!(f.depth_limit(), None);
}

fn result(path: &str, lines: usize) -> SearchResult {
    let engine = SearchEngine::new();
    let search = engine
        .search_pattern(RootStatus::Directory, "/r".to_string(), "x".to_string(), None)
        .unwrap();
    let bytes = "x\n".repeat(lines);
    SearchResult {
        file_path: path.to_string(),
        matches: cmdshiftai::content::search_bytes(&search.pattern, bytes.as_bytes()),
    }
}

#[test]
fn aggregator_keeps_one_result_for_each_file() {
    let mut agg = ResultAggregator::new();
    assert_eq!(agg.len(), 0);
    assert_eq!(agg.accept(result("/r/a", 2)), Ok(true));
    assert_eq!(agg.accept(result("/r/empty", 0)), Ok(false));
    assert_eq!(agg.accept(result("/r/b", 1)), Ok(true));
    assert_eq!(agg.accept(result("/r/a", 1)), Err(SearchError::Internal));
    assert_eq!(agg.accept(result("/r/a", 0)), Ok(false));
    assert_eq!(agg.len(), 2);
    let found = agg.finalize();
    assert_eq!(found.len(), 2);
    assert_eq!(found[0].file_path, "/r/a");
    assert_eq!(found[0].matches.len(), 2);
    assert_eq!(found[1].file_path, "/r/b");
    assert_eq!(found[1].matches.len(), 1);
}

#[test]
fn path_aggregator_keeps_each_path_once() {
    let mut agg = PathAggregator::new();
    assert_eq!(agg.accept("/r/a".to_string()), Ok(()));
    assert_eq!(agg.accept("/r/b".to_string()), Ok(()));
    assert_eq!(agg.accept("/r/a".to_string()), Err(SearchError::Internal));
    assert_eq!(agg.finalize(), vec!["/r/a".to_string(), "/r/b".to_string()]);
}
