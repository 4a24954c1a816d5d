use cmdshiftai::engine::{ContentSearch, FileSearch, RootStatus, SearchEngine};
use cmdshiftai::error::SearchError;
use cmdshiftai::options::SearchOptions;
use cmdshiftai::results::SearchResult;
use cmdshiftai::walk::{DirEntry, DirListing, EntryKind};

const ROOT: &str = "/work";

#[derive(Clone)]
enum Node {
    File(Vec<u8>),
    Unreadable,
    Dir,
    /// A directory entry that is a link to the directory with this real path.
    LinkTo(String),
}

/// A directory tree held in memory: paths from the root, with what is there.
struct Tree {
    nodes: Vec<(String, Node)>,
}

fn parent_of(path: &str) -> &str {
    match path.rfind('/') {
        Some(i) => &path[..i],
        None => "",
    }
}

fn name_of(path: &str) -> &str {
    match path.rfind('/') {
        Some(i) => &path[i + 1..],
        None => path,
    }
}

fn real_of(path: &str) -> String {
    if path.is_empty() {
        ROOT.to_string()
    } else {
        format!("{}/{}", ROOT, path)
    }
}

impl Tree {
    fn new() -> Tree {
        Tree { nodes: Vec::new() }
    }

    fn file(mut self, path: &str, content: &[u8]) -> Tree {
        self.nodes.push((path.to_string(), Node::File(content.to_vec())));
        self
    }

    fn unreadable(mut self, path: &str) -> Tree {
        self.nodes.push((path.to_string(), Node::Unreadable));
        self
    }

    fn dir(mut self, path: &str) -> Tree {
        self.nodes.push((path.to_string(), Node::Dir));
        self
    }

    fn link(mut self, path: &str, target: &str) -> Tree {
        self.nodes.push((path.to_string(), Node::LinkTo(real_of(target))));
        self
    }

    fn lines_of(&self, dir: &str, name: &str) -> Option<Vec<String>> {
        let wanted = if dir.is_empty() { name.to_string() } else { format!("{}/{}", dir, name) };
        for (path, node) in &self.nodes {
            if *path == wanted {
                if let Node::File(content) = node {
                    let text = String::from_utf8_lossy(content).into_owned();
                    return Some(text.lines().map(|l| l.to_string()).collect());
                }
            }
        }
        None
    }

    fn list(&self, real_path: &str) -> DirListing {
        let dir = if real_path == ROOT { "" } else { &real_path[ROOT.len() + 1..] };
        let mut entries = Vec::new();
        for (path, node) in &self.nodes {
            if parent_of(path) == dir {
                let (kind, real_path) = match node {
                    Node::File(_) | Node::Unreadable => (EntryKind::File, real_of(path)),
                    Node::Dir => (EntryKind::Directory, real_of(path)),
                    Node::LinkTo(target) => (EntryKind::Directory, target.clone()),
                };
                entries.push(DirEntry { name: name_of(path).to_string(), kind, real_path });
            }
        }
        DirListing {
            entries,
            ignore_lines: self.lines_of(dir, ".ignore"),
            gitignore_lines: self.lines_of(dir, ".gitignore"),
        }
    }

    fn content(&self, real_path: &str) -> Option<&Vec<u8>> {
        for (path, node) in &self.nodes {
            if real_of(path) == real_path {
                if let Node::File(content) = node {
                    return Some(content);
                }
            }
        }
        None
    }
}

fn run_content(search: &mut ContentSearch, tree: &Tree) {
    let mut steps = 0;
    while let Some(job) = search.walk.next_directory() {
        steps += 1;
        assert!(steps < 1000, "the walk does not end");
        let listing = tree.list(&job.real_path);
        let files = search.walk.submit_listing(job.id, &listing).unwrap();
        for candidate in &files {
            if let Some(bytes) = tree.content(&candidate.real_path) {
                let result = search.scan(candidate, bytes);
                search.results.accept(result).unwrap();
            }
        }
        search.walk.finish_job(job.id).unwrap();
    }
}

fn search_content(tree: &Tree, pattern: &str, options: Option<SearchOptions>) -> Vec<SearchResult> {
    let engine = SearchEngine::new();
    let mut search = engine
        .search_pattern(RootStatus::Directory, ROOT.to_string(), pattern.to_string(), options)
        .unwrap();
    run_content(&mut search, tree);
    let mut found = search.finish().unwrap();
    found.sort_by(|a, b| a.file_path.cmp(&b.file_path));
    found
}

fn run_names(search: &mut FileSearch, tree: &Tree) {
    let mut steps = 0;
    while let Some(job) = search.walk.next_directory() {
        steps += 1;
        assert!(steps < 1000, "the walk does not end");
        let listing = tree.list(&job.real_path);
        let files = search.walk.submit_listing(job.id, &listing).unwrap();
        for candidate in &files {
            search.consider(candidate).unwrap();
        }
        search.walk.finish_job(job.id).unwrap();
    }
}

fn search_names(tree: &Tree, pattern: &str) -> Vec<String> {
    let engine = SearchEngine::new();
    let mut search =
        engine.search_files(RootStatus::Directory, ROOT.to_string(), pattern.to_string()).unwrap();
    run_names(&mut search, tree);
    let mut found = search.finish().unwrap();
    found.sort();
    found
}

fn paths(found: &[SearchResult]) -> Vec<String> {
    found.iter().map(|r| r.file_path.clone()).collect()
}

fn options() -> SearchOptions {
    SearchOptions::default()
}

#[test]
fn two_files_one_match_each() {
    let tree = Tree::new().file("a.txt", b"foo\nbar").file("b.txt", b"bar\nfoo");
    let found = search_content(&tree, "foo", None);
    assert_eq!(found.len(), 2);
    assert_eq!(found[0].file_path, "/work/a.txt");
    assert_eq!(found[0].matches.len(), 1);
    assert_eq!(found[0].matches[0].line_number, 1);
    assert_eq!(found[0].matches[0].column_start, 0);
    assert_eq!(found[0].matches[0].column_end, 3);
    assert_eq!(found[0].matches[0].text, "foo\n");
    assert_eq!(found[1].file_path, "/work/b.txt");
    assert_eq!(found[1].matches.len(), 1);
    assert_eq!(found[1].matches[0].line_number, 2);
    assert_eq!(found[1].matches[0].column_start, 4);
    assert_eq!(found[1].matches[0].column_end, 7);
    assert_eq!(found[1].matches[0].text, "foo");
}

#[test]
fn n_files_give_n_results_with_one_match() {
    let mut tree = Tree::new().dir("deep").dir("deep/er");
    let mut expected = Vec::new();
    for i in 0..7 {
        let dir = ["", "deep/", "deep/er/"][i % 3];
        let path = format!("{}f{}.txt", dir, i);
        let content = format!("nothing\nneedle {}\nnothing more\n", i);
        tree = tree.file(&path, content.as_bytes());
        expected.push(real_of(&path));
    }
    tree = tree.file("zero.txt", b"no match here\n");
    expected.sort();
    let found = search_content(&tree, "needle", None);
    assert_eq!(paths(&found), expected);
    for r in &found {
        assert_eq!(r.matches.len(), 1);
        assert_eq!(r.matches[0].line_number, 2);
        assert_eq!(r.matches[0].column_start, 8);
        assert_eq!(r.matches[0].column_end, 14);
    }
}

#[test]
fn file_with_nul_byte_is_never_reported() {
    let tree = Tree::new()
        .file("bin.dat", b"needle\n\0\nneedle\n")
        .file("late.dat", b"needle\nneedle\nmore\0")
        .file("text.txt", b"needle\n");
    let found = search_content(&tree, "needle", None);
    assert_eq!(paths(&found), vec!["/work/text.txt".to_string()]);
}

#[test]
fn hidden_entries_are_pruned() {
    let tree = Tree::new()
        .file("seen.txt", b"x\n")
        .file(".secret.txt", b"x\n")
        .dir(".git")
        .file(".git/config.txt", b"x\n")
        .dir(".git/sub")
        .file(".git/sub/deep.txt", b"x\n")
        .dir("src")
        .file("src/.hidden", b"x\n")
        .file("src/main.txt", b"x\n");
    let found = search_content(&tree, "x", None);
    assert_eq!(paths(&found), vec!["/work/seen.txt".to_string(), "/work/src/main.txt".to_string()]);
    for r in &found {
        assert!(!r.file_path[ROOT.len()..].split('/').any(|c| c.starts_with('.')));
    }

    // The directory below a hidden one is never handed out for listing.
    let engine = SearchEngine::new();
    let mut search = engine
        .search_pattern(RootStatus::Directory, ROOT.to_string(), "x".to_string(), None)
        .unwrap();
    let mut listed = Vec::new();
    while let Some(job) = search.walk.next_directory() {
        listed.push(job.rel_path.clone());
        let listing = tree.list(&job.real_path);
        search.walk.submit_listing(job.id, &listing).unwrap();
        search.walk.finish_job(job.id).unwrap();
    }
    assert_eq!(listed, vec!["".to_string(), "src".to_string()]);
}

#[test]
fn hidden_entries_take_part_on_request() {
    let tree = Tree::new()
        .file("seen.txt", b"x\n")
        .file(".secret.txt", b"x\n")
        .dir(".cache")
        .file(".cache/data.txt", b"x\n");
    let mut opts = options();
    opts.include_hidden = Some(true);
    let found = search_content(&tree, "x", Some(opts));
    assert_eq!(
        paths(&found),
        vec![
            "/work/.cache/data.txt".to_string(),
            "/work/.secret.txt".to_string(),
            "/work/seen.txt".to_string()
        ]
    );
}

fn nested_tree() -> Tree {
    Tree::new()
        .file("top.txt", b"hit\n")
        .dir("a")
        .file("a/one.txt", b"hit\n")
        .dir("a/b")
        .file("a/b/two.txt", b"hit\n")
        .dir("a/b/c")
        .file("a/b/c/three.txt", b"hit\n")
}

#[test]
fn depth_zero_stays_with_the_roots_children() {
    let mut opts = options();
    opts.max_depth = Some(0);
    let found = search_content(&nested_tree(), "hit", Some(opts));
    assert_eq!(paths(&found), vec!["/work/top.txt".to_string()]);
}

#[test]
fn depth_one_goes_one_level_down() {
    let mut opts = options();
    opts.max_depth = Some(1);
    let found = search_content(&nested_tree(), "hit", Some(opts));
    assert_eq!(paths(&found), vec!["/work/a/one.txt".to_string(), "/work/top.txt".to_string()]);
}

#[test]
fn no_depth_limit_reaches_nested_files() {
    let found = search_content(&nested_tree(), "hit", None);
    assert_eq!(
        paths(&found),
        vec![
            "/work/a/b/c/three.txt".to_string(),
            "/work/a/b/two.txt".to_string(),
            "/work/a/one.txt".to_string(),
            "/work/top.txt".to_string()
        ]
    );
}

#[test]
fn negative_depth_means_no_limit() {
    let mut opts = options();
    opts.max_depth = Some(-1);
    let found = search_content(&nested_tree(), "hit", Some(opts));
    assert_eq!(found.len(), 4);
}

#[test]
fn exclude_glob_wins_over_include_glob() {
    let tree = Tree::new()
        .file("keep.txt", b"x\n")
        .file("a_skip.txt", b"x\n")
        .file("notes.md", b"x\n")
        .dir("sub")
        .file("sub/more.txt", b"x\n")
        .file("sub/b_skip.txt", b"x\n")
        .file("sub/code.rs", b"x\n");
    let mut opts = options();
    opts.include_patterns = Some(vec!["*.txt".to_string()]);
    opts.exclude_patterns = Some(vec!["*_skip.txt".to_string()]);
    let found = search_content(&tree, "x", Some(opts));
    assert_eq!(paths(&found), vec!["/work/keep.txt".to_string(), "/work/sub/more.txt".to_string()]);
}

#[test]
fn exclude_glob_prunes_a_directory() {
    let tree = Tree::new()
        .file("keep.txt", b"x\n")
        .dir("target")
        .file("target/out.txt", b"x\n")
        .dir("target/debug")
        .file("target/debug/deep.txt", b"x\n");
    let mut opts = options();
    opts.exclude_patterns = Some(vec!["target".to_string()]);
    let found = search_content(&tree, "x", Some(opts));
    assert_eq!(paths(&found), vec!["/work/keep.txt".to_string()]);
}

#[test]
fn glob_syntax_double_star_question_mark_and_class() {
    let tree = Tree::new()
        .file("a1.txt", b"x\n")
        .file("a2.txt", b"x\n")
        .file("b1.txt", b"x\n")
        .dir("docs")
        .file("docs/a1.txt", b"x\n")
        .dir("docs/old")
        .file("docs/old/a3.txt", b"x\n");
    let mut opts = options();
    opts.include_patterns = Some(vec!["docs/**/a?.txt".to_string(), "/[ab]1.txt".to_string()]);
    let found = search_content(&tree, "x", Some(opts));
    assert_eq!(
        paths(&found),
        vec![
            "/work/a1.txt".to_string(),
            "/work/b1.txt".to_string(),
            "/work/docs/a1.txt".to_string(),
            "/work/docs/old/a3.txt".to_string()
        ]
    );
}

#[test]
fn two_runs_give_the_same_results() {
    let tree = nested_tree().file("a/b/.gitignore", b"c\n");
    let first = search_content(&tree, "hit", None);
    let second = search_content(&tree, "hit", None);
    assert_eq!(paths(&first), paths(&second));
    for (a, b) in first.iter().zip(second.iter()) {
        assert_eq!(a.matches.len(), b.matches.len());
        for (m, n) in a.matches.iter().zip(b.matches.iter()) {
            assert_eq!(m.line_number, n.line_number);
            assert_eq!(m.column_start, n.column_start);
            assert_eq!(m.column_end, n.column_end);
            assert_eq!(m.text, n.text);
        }
    }
}

#[test]
fn link_back_to_an_ancestor_ends_and_gives_no_duplicate() {
    let tree = Tree::new()
        .file("top.txt", b"hit\n")
        .dir("a")
        .file("a/one.txt", b"hit\n")
        .link("a/up", "")
        .link("a/self", "a")
        .dir("a/b")
        .link("a/b/again", "a");
    let found = search_content(&tree, "hit", None);
    assert_eq!(paths(&found), vec!["/work/a/one.txt".to_string(), "/work/top.txt".to_string()]);
}

#[test]
fn same_file_under_two_names_is_reported_once() {
    let tree = Tree::new().file("one.txt", b"hit\n").dir("d");
    let engine = SearchEngine::new();
    let mut search = engine
        .search_pattern(RootStatus::Directory, ROOT.to_string(), "hit".to_string(), None)
        .unwrap();
    let job = search.walk.next_directory().unwrap();
    let listing = DirListing {
        entries: vec![
            DirEntry {
                name: "one.txt".to_string(),
                kind: EntryKind::File,
                real_path: "/work/one.txt".to_string(),
            },
            DirEntry {
                name: "alias.txt".to_string(),
                kind: EntryKind::File,
                real_path: "/work/one.txt".to_string(),
            },
            DirEntry {
                name: "pipe".to_string(),
                kind: EntryKind::Other,
                real_path: "/work/pipe".to_string(),
            },
        ],
        ignore_lines: None,
        gitignore_lines: None,
    };
    let files = search.walk.submit_listing(job.id, &listing).unwrap();
    assert_eq!(files.len(), 1);
    assert_eq!(files[0].rel_path, "one.txt");
    assert_eq!(files[0].name, "one.txt");
    assert_eq!(files[0].real_path, "/work/one.txt");
    assert!(!search.walk.is_quiescent());
    search.walk.finish_job(job.id).unwrap();
    assert!(search.walk.is_quiescent());
    let _ = tree;
}

#[test]
fn unreadable_file_is_skipped_without_error() {
    let tree = Tree::new().unreadable("locked.txt").file("open.txt", b"hit\n");
    let found = search_content(&tree, "hit", None);
    assert_eq!(paths(&found), vec!["/work/open.txt".to_string()]);
}

#[test]
fn unlistable_directory_is_skipped_without_error() {
    let tree = Tree::new().file("open.txt", b"hit\n").dir("locked");
    let engine = SearchEngine::new();
    let mut search = engine
        .search_pattern(RootStatus::Directory, ROOT.to_string(), "hit".to_string(), None)
        .unwrap();
    while let Some(job) = search.walk.next_directory() {
        if job.rel_path == "locked" {
            search.walk.skip_directory(job.id).unwrap();
            continue;
        }
        let listing = tree.list(&job.real_path);
        for candidate in &search.walk.submit_listing(job.id, &listing).unwrap() {
            let result = search.scan(candidate, tree.content(&candidate.real_path).unwrap());
            search.results.accept(result).unwrap();
        }
        search.walk.finish_job(job.id).unwrap();
    }
    let found = search.finish().unwrap();
    assert_eq!(paths(&found), vec!["/work/open.txt".to_string()]);
}

#[test]
fn invalid_regex_is_an_invalid_pattern() {
    let engine = SearchEngine::new();
    let r = engine.search_pattern(
        RootStatus::Directory,
        ROOT.to_string(),
        "foo(bar".to_string(),
        None,
    );
    assert!(matches!(r, Err(SearchError::InvalidPattern)));
}

#[test]
fn pattern_with_line_feed_is_an_invalid_pattern() {
    let engine = SearchEngine::new();
    let r = engine.search_pattern(RootStatus::Directory, ROOT.to_string(), "a\nb".to_string(), None);
    assert!(matches!(r, Err(SearchError::InvalidPattern)));
}

#[test]
fn invalid_glob_is_an_invalid_pattern() {
    let engine = SearchEngine::new();
    let mut opts = options();
    opts.exclude_patterns = Some(vec!["ok".to_string(), "a{b".to_string()]);
    let r = engine.search_pattern(RootStatus::Directory, ROOT.to_string(), "x".to_string(), Some(opts));
    assert!(matches!(r, Err(SearchError::InvalidPattern)));
    let mut opts = options();
    opts.include_patterns = Some(vec!["a{b".to_string()]);
    let r = engine.search_pattern(RootStatus::Directory, ROOT.to_string(), "x".to_string(), Some(opts));
    assert!(matches!(r, Err(SearchError::InvalidPattern)));
}

#[test]
fn missing_root_is_path_not_found() {
    let engine = SearchEngine::new();
    let r = engine.search_pattern(RootStatus::Missing, ROOT.to_string(), "x".to_string(), None);
    assert!(matches!(r, Err(SearchError::PathNotFound)));
    let r = engine.search_pattern(RootStatus::NotDirectory, ROOT.to_string(), "x".to_string(), None);
    assert!(matches!(r, Err(SearchError::PathNotFound)));
    let r = engine.search_files(RootStatus::Missing, ROOT.to_string(), "x".to_string());
    assert!(matches!(r, Err(SearchError::PathNotFound)));
    let r = engine.search_files(RootStatus::NotDirectory, ROOT.to_string(), "x".to_string());
    assert!(matches!(r, Err(SearchError::PathNotFound)));
}

#[test]
fn invalid_pattern_comes_before_a_bad_root() {
    let engine = SearchEngine::new();
    let r = engine.search_pattern(RootStatus::Missing, ROOT.to_string(), "(".to_string(), None);
    assert!(matches!(r, Err(SearchError::InvalidPattern)));
    let r = engine.search_files(RootStatus::Missing, ROOT.to_string(), "(".to_string());
    assert!(matches!(r, Err(SearchError::InvalidPattern)));
}

#[test]
fn case_is_matched_as_written_by_default() {
    let tree = Tree::new().file("a.txt", b"Foo\nfoo\nFOO\n");
    let found = search_content(&tree, "foo", None);
    assert_eq!(found[0].matches.len(), 1);
    assert_eq!(found[0].matches[0].line_number, 2);
    let mut opts = options();
    opts.case_sensitive = Some(true);
    let found = search_content(&tree, "foo", Some(opts));
    assert_eq!(found[0].matches.len(), 1);
}

#[test]
fn case_is_folded_on_request() {
    let tree = Tree::new().file("a.txt", b"Foo\nfoo\nFOO\nbar\nBAZ\n");
    let mut opts = options();
    opts.case_sensitive = Some(false);
    let found = search_content(&tree, "foo|baz", Some(opts));
    assert_eq!(found[0].matches.len(), 4);
    assert_eq!(found[0].matches[3].line_number, 5);
    assert_eq!(found[0].matches[3].text, "BAZ\n");
}

#[test]
fn gitignore_rules_shut_entries_out() {
    let tree = Tree::new()
        .file(".gitignore", b"# build output\n*.log\n/build/\n\nsub/skip.txt\n")
        .file("app.log", b"hit\n")
        .file("main.txt", b"hit\n")
        .dir("build")
        .file("build/out.txt", b"hit\n")
        .dir("sub")
        .file("sub/skip.txt", b"hit\n")
        .file("sub/keep.txt", b"hit\n")
        .file("sub/trace.log", b"hit\n")
        .dir("sub/build")
        .file("sub/build/inner.txt", b"hit\n");
    let found = search_content(&tree, "hit", None);
    assert_eq!(
        paths(&found),
        vec![
            "/work/main.txt".to_string(),
            "/work/sub/build/inner.txt".to_string(),
            "/work/sub/keep.txt".to_string()
        ]
    );
}

#[test]
fn gitignore_rules_can_be_switched_off() {
    let tree = Tree::new()
        .file(".gitignore", b"*.log\n")
        .file("app.log", b"hit\n")
        .file("main.txt", b"hit\n");
    let mut opts = options();
    opts.disable_gitignore = Some(true);
    let found = search_content(&tree, "hit", Some(opts));
    assert_eq!(paths(&found), vec!["/work/app.log".to_string(), "/work/main.txt".to_string()]);
}

#[test]
fn ignore_file_rules_shut_entries_out() {
    let tree = Tree::new()
        .file(".ignore", b"*.tmp\n")
        .file("a.tmp", b"hit\n")
        .file("a.txt", b"hit\n")
        .dir("sub")
        .file("sub/b.tmp", b"hit\n");
    let found = search_content(&tree, "hit", None);
    assert_eq!(paths(&found), vec!["/work/a.txt".to_string()]);
    let mut opts = options();
    opts.disable_ignore = Some(true);
    let found = search_content(&tree, "hit", Some(opts));
    assert_eq!(found.len(), 3);
}

#[test]
fn nearer_ignore_file_decides_first() {
    let tree = Tree::new()
        .file(".gitignore", b"*.log\n")
        .file("top.log", b"hit\n")
        .dir("sub")
        .file("sub/.gitignore", b"!keep.log\n")
        .file("sub/keep.log", b"hit\n")
        .file("sub/drop.log", b"hit\n");
    let found = search_content(&tree, "hit", None);
    assert_eq!(paths(&found), vec!["/work/sub/keep.log".to_string()]);
}

#[test]
fn a_rule_of_one_family_does_not_undo_the_other() {
    let tree = Tree::new()
        .file(".gitignore", b"*.log\n")
        .file(".ignore", b"!app.log\n")
        .file("app.log", b"hit\n")
        .file("main.txt", b"hit\n");
    let found = search_content(&tree, "hit", None);
    assert_eq!(paths(&found), vec!["/work/main.txt".to_string()]);
}

#[test]
fn invalid_line_of_an_ignore_file_is_passed_over() {
    let tree = Tree::new()
        .file(".gitignore", b"a{b\n*.log\n")
        .file("app.log", b"hit\n")
        .file("main.txt", b"hit\n");
    let found = search_content(&tree, "hit", None);
    assert_eq!(paths(&found), vec!["/work/main.txt".to_string()]);
}

#[test]
fn file_names_are_matched_by_their_last_component() {
    let tree = Tree::new()
        .file("report.txt", b"")
        .file("notes.md", b"")
        .dir("report")
        .file("report/data.csv", b"")
        .file("report/final_report.txt", b"")
        .file(".report_hidden", b"");
    let found = search_names(&tree, "report");
    assert_eq!(
        found,
        vec!["/work/report.txt".to_string(), "/work/report/final_report.txt".to_string()]
    );
    let found = search_names(&tree, r"^report\.txt$");
    assert_eq!(found, vec!["/work/report.txt".to_string()]);
}

#[test]
fn file_name_search_reads_gitignore_and_ignore_files() {
    let tree = Tree::new()
        .file(".gitignore", b"*.log\n")
        .file(".ignore", b"*.tmp\n")
        .file("a.log", b"")
        .file("a.tmp", b"")
        .file("a.txt", b"");
    let found = search_names(&tree, "^a");
    assert_eq!(found, vec!["/work/a.txt".to_string()]);
}

#[test]
fn file_name_search_shuts_hidden_entries_out() {
    let tree = Tree::new()
        .file(".env", b"")
        .file("a.txt", b"")
        .dir(".cfg")
        .file(".cfg/b.txt", b"");
    let found = search_names(&tree, ".*");
    assert_eq!(found, vec!["/work/a.txt".to_string()]);

    // The hidden directory is never handed out for listing.
    let engine = SearchEngine::new();
    let mut search =
        engine.search_files(RootStatus::Directory, ROOT.to_string(), ".*".to_string()).unwrap();
    let mut listed = Vec::new();
    while let Some(job) = search.walk.next_directory() {
        listed.push(job.rel_path.clone());
        let listing = tree.list(&job.real_path);
        for candidate in &search.walk.submit_listing(job.id, &listing).unwrap() {
            search.consider(candidate).unwrap();
        }
        search.walk.finish_job(job.id).unwrap();
    }
    assert_eq!(listed, vec!["".to_string()]);
    assert_eq!(search.finish().unwrap(), vec!["/work/a.txt".to_string()]);
}

#[test]
fn file_name_search_looks_at_names_not_at_content() {
    let tree = Tree::new().file("bin.dat", b"\0\0").unreadable("locked.dat").file("c.txt", b"dat");
    let found = search_names(&tree, r"\.dat$");
    assert_eq!(found, vec!["/work/bin.dat".to_string(), "/work/locked.dat".to_string()]);
}

#[test]
fn invalid_file_pattern_is_an_invalid_pattern() {
    let engine = SearchEngine::new();
    let r = engine.search_files(RootStatus::Directory, ROOT.to_string(), "[a".to_string());
    assert!(matches!(r, Err(SearchError::InvalidPattern)));
}

#[test]
fn listing_for_an_unknown_job_is_an_internal_error() {
    let engine = SearchEngine::new();
    let mut search = engine
        .search_pattern(RootStatus::Directory, ROOT.to_string(), "x".to_string(), None)
        .unwrap();
    let empty = DirListing { entries: Vec::new(), ignore_lines: None, gitignore_lines: None };
    assert!(matches!(search.walk.submit_listing(0, &empty), Err(SearchError::Internal)));
    assert!(matches!(search.walk.skip_directory(3), Err(SearchError::Internal)));
    let job = search.walk.next_directory().unwrap();
    assert_eq!(job.id, 0);
    assert_eq!(job.rel_path, "");
    assert_eq!(job.real_path, ROOT);
    assert!(matches!(search.walk.finish_job(job.id), Err(SearchError::Internal)));
    assert!(search.walk.submit_listing(job.id, &empty).is_ok());
    assert!(matches!(search.walk.submit_listing(job.id, &empty), Err(SearchError::Internal)));
    assert!(matches!(search.walk.skip_directory(job.id), Err(SearchError::Internal)));
    assert!(search.walk.finish_job(job.id).is_ok());
    assert!(matches!(search.walk.finish_job(job.id), Err(SearchError::Internal)));
    assert!(matches!(search.walk.finish_job(7), Err(SearchError::Internal)));
}

#[test]
fn search_cannot_finish_before_the_walk_is_over() {
    let engine = SearchEngine::new();
    let search = engine
        .search_pattern(RootStatus::Directory, ROOT.to_string(), "x".to_string(), None)
        .unwrap();
    assert!(!search.walk.is_quiescent());
    assert!(matches!(search.finish(), Err(SearchError::Internal)));

    let mut search = engine
        .search_pattern(RootStatus::Directory, ROOT.to_string(), "x".to_string(), None)
        .unwrap();
    let job = search.walk.next_directory().unwrap();
    assert!(!search.walk.is_quiescent());
    let empty = DirListing { entries: Vec::new(), ignore_lines: None, gitignore_lines: None };
    search.walk.submit_listing(job.id, &empty).unwrap();
    // The files of the listing may still be looked at.
    assert!(!search.walk.is_quiescent());
    search.walk.finish_job(job.id).unwrap();
    assert!(search.walk.is_quiescent());
    assert!(search.finish().unwrap().is_empty());
}

#[test]
fn job_numbers_are_used_again() {
    let tree = Tree::new().dir("a").dir("b").dir("c");
    let engine = SearchEngine::new();
    let mut search = engine
        .search_pattern(RootStatus::Directory, ROOT.to_string(), "x".to_string(), None)
        .unwrap();
    let root = search.walk.next_directory().unwrap();
    search.walk.submit_listing(root.id, &tree.list(&root.real_path)).unwrap();
    // The root's job is still out, so the next one gets a new number.
    let a = search.walk.next_directory().unwrap();
    assert_eq!((root.id, a.id), (0, 1));
    search.walk.finish_job(root.id).unwrap();
    let b = search.walk.next_directory().unwrap();
    assert_eq!(b.id, 0);
    assert_eq!((a.rel_path.as_str(), b.rel_path.as_str()), ("a", "b"));
    search.walk.skip_directory(a.id).unwrap();
    let c = search.walk.next_directory().unwrap();
    assert_eq!(c.id, 1);
    assert_eq!(c.rel_path, "c");
    assert!(search.walk.next_directory().is_none());
    assert!(!search.walk.is_quiescent());
    search.walk.submit_listing(b.id, &tree.list(&b.real_path)).unwrap();
    search.walk.finish_job(b.id).unwrap();
    search.walk.skip_directory(c.id).unwrap();
    assert!(search.walk.is_quiescent());
}
