use cmdshiftai::engine::SearchEngine;
use cmdshiftai::error::SearchError;
use cmdshiftai::options::SearchOptions;
use cmdshiftai::snapshot::{DirRecord, FileRecord, TreeSnapshot};
use cmdshiftai::walk::{DirEntry, DirListing, EntryKind};

fn file(name: &str, real_path: &str) -> DirEntry {
    DirEntry { name: name.to_string(), kind: EntryKind::File, real_path: real_path.to_string() }
}

fn dir(name: &str, real_path: &str) -> DirEntry {
    DirEntry { name: name.to_string(), kind: EntryKind::Directory, real_path: real_path.to_string() }
}

fn listing(entries: Vec<DirEntry>) -> DirListing {
    DirListing { entries, ignore_lines: None, gitignore_lines: None }
}

fn dir_record(real_path: &str, listing: DirListing) -> DirRecord {
    DirRecord { real_path: real_path.to_string(), listing }
}

fn file_record(real_path: &str, content: &[u8]) -> FileRecord {
    FileRecord { real_path: real_path.to_string(), content: content.to_vec() }
}

fn small_tree() -> TreeSnapshot {
    TreeSnapshot {
        dirs: vec![
            dir_record("/r", listing(vec![file("a.txt", "/r/a.txt"), file("b.txt", "/r/b.txt")])),
        ],
        files: vec![file_record("/r/a.txt", b"foo\nbar"), file_record("/r/b.txt", b"bar\nfoo")],
    }
}

#[test]
fn snapshot_search_of_two_files() {
    let found = SearchEngine::new()
        .search_snapshot(&small_tree(), "/r".to_string(), "foo".to_string(), None)
        .unwrap();
    assert_eq!(found.len(), 2);
    assert_eq!(found[0].file_path, "/r/a.txt");
    assert_eq!(found[0].matches.len(), 1);
    assert_eq!(found[0].matches[0].line_number, 1);
    assert_eq!(found[1].file_path, "/r/b.txt");
    assert_eq!(found[1].matches.len(), 1);
    assert_eq!(found[1].matches[0].line_number, 2);
}

#[test]
fn snapshot_search_goes_breadth_first_and_ends_on_loops() {
    let tree = TreeSnapshot {
        dirs: vec![
            dir_record(
                "/r",
                listing(vec![dir("x", "/r/x"), file("top.txt", "/r/top.txt"), dir("y", "/r/y")]),
            ),
            dir_record(
                "/r/x",
                listing(vec![
                    dir("back", "/r"),
                    dir("deep", "/r/x/deep"),
                    file("one.txt", "/r/x/one.txt"),
                    file("again.txt", "/r/top.txt"),
                ]),
            ),
            dir_record("/r/y", listing(vec![file("two.txt", "/r/y/two.txt"), dir("x", "/r/x")])),
            dir_record(
                "/r/x/deep",
                listing(vec![
                    file("three.txt", "/r/x/deep/three.txt"),
                    file("bin.dat", "/r/x/deep/bin.dat"),
                    file("gone.txt", "/r/x/deep/gone.txt"),
                    dir("lost", "/r/x/deep/lost"),
                ]),
            ),
        ],
        files: vec![
            file_record("/r/top.txt", b"hit\n"),
            file_record("/r/x/one.txt", b"miss\nhit\nhit\n"),
            file_record("/r/y/two.txt", b"miss\n"),
            file_record("/r/x/deep/three.txt", b"hit"),
            file_record("/r/x/deep/bin.dat", b"hit\n\0"),
        ],
    };
    let found =
        SearchEngine::new().search_snapshot(&tree, "/r".to_string(), "hit".to_string(), None).unwrap();
    let got: Vec<(String, usize)> =
        found.iter().map(|r| (r.file_path.clone(), r.matches.len())).collect();
    assert_eq!(
        got,
        vec![
            ("/r/top.txt".to_string(), 1),
            ("/r/x/one.txt".to_string(), 2),
            ("/r/x/deep/three.txt".to_string(), 1),
        ]
    );
}

#[test]
fn snapshot_search_reads_ignore_files_of_the_listing() {
    let tree = TreeSnapshot {
        dirs: vec![
            DirRecord {
                real_path: "/r".to_string(),
                listing: DirListing {
                    entries: vec![file("a.log", "/r/a.log"), file("a.txt", "/r/a.txt"), dir("d", "/r/d")],
                    ignore_lines: Some(vec!["*.tmp".to_string()]),
                    gitignore_lines: Some(vec!["*.log".to_string()]),
                },
            },
            dir_record("/r/d", listing(vec![file("b.tmp", "/r/d/b.tmp"), file("b.log", "/r/d/b.log")])),
        ],
        files: vec![
            file_record("/r/a.log", b"hit\n"),
            file_record("/r/a.txt", b"hit\n"),
            file_record("/r/d/b.tmp", b"hit\n"),
            file_record("/r/d/b.log", b"hit\n"),
        ],
    };
    let engine = SearchEngine::new();
    let found = engine.search_snapshot(&tree, "/r".to_string(), "hit".to_string(), None).unwrap();
    assert_eq!(found.len(), 1);
    assert_eq!(found[0].file_path, "/r/a.txt");
    let mut o = SearchOptions::default();
    o.disable_ignore = Some(true);
    let found = engine.search_snapshot(&tree, "/r".to_string(), "hit".to_string(), Some(o)).unwrap();
    assert_eq!(found.len(), 2);
    assert_eq!(found[1].file_path, "/r/d/b.tmp");
}

#[test]
fn snapshot_search_checks_the_request() {
    let engine = SearchEngine::new();
    let tree = small_tree();
    let r = engine.search_snapshot(&tree, "/r".to_string(), "(".to_string(), None);
    assert!(matches!(r, Err(SearchError::InvalidPattern)));
    let r = engine.search_snapshot(&tree, "/nowhere".to_string(), "foo".to_string(), None);
    assert!(matches!(r, Err(SearchError::PathNotFound)));
    let r = engine.search_snapshot(&tree, "/r/a.txt".to_string(), "foo".to_string(), None);
    assert!(matches!(r, Err(SearchError::PathNotFound)));
    let r = engine.search_snapshot(&tree, "/nowhere".to_string(), "(".to_string(), None);
    assert!(matches!(r, Err(SearchError::InvalidPattern)));
}

#[test]
fn snapshot_search_is_the_same_every_time() {
    let engine = SearchEngine::new();
    let tree = small_tree();
    let first = engine.search_snapshot(&tree, "/r".to_string(), "ba.".to_string(), None).unwrap();
    let second = engine.search_snapshot(&tree, "/r".to_string(), "ba.".to_string(), None).unwrap();
    assert_eq!(first.len(), second.len());
    for (a, b) in first.iter().zip(second.iter()) {
        assert_eq!(a.file_path, b.file_path);
        assert_eq!(a.matches.len(), b.matches.len());
        for (m, n) in a.matches.iter().zip(b.matches.iter()) {
            assert_eq!(
                (m.line_number, m.column_start, m.column_end, &m.text),
                (n.line_number, n.column_start, n.column_end, &n.text)
            );
        }
    }
}

#[test]
fn first_record_of_a_path_counts() {
    let tree = TreeSnapshot {
        dirs: vec![
            dir_record("/r", listing(vec![file("a.txt", "/r/a.txt")])),
            dir_record("/r", listing(vec![file("b.txt", "/r/b.txt")])),
        ],
        files: vec![
            file_record("/r/a.txt", b"first\n"),
            file_record("/r/a.txt", b"second\n"),
            file_record("/r/b.txt", b"first\n"),
        ],
    };
    let found =
        SearchEngine::new().search_snapshot(&tree, "/r".to_string(), "first|second".to_string(), None)
            .unwrap();
    assert_eq!(found.len(), 1);
    assert_eq!(found[0].matches[0].text, "first\n");
}

#[test]
fn snapshot_name_search_finds_files_by_name() {
    let tree = TreeSnapshot {
        dirs: vec![
            DirRecord {
                real_path: "/r".to_string(),
                listing: DirListing {
                    entries: vec![
                        file("report.txt", "/r/report.txt"),
                        file(".report", "/r/.report"),
                        file("old_report.log", "/r/old_report.log"),
                        file("report.tmp", "/r/report.tmp"),
                        dir("report", "/r/report"),
                        dir("loop", "/r"),
                    ],
                    ignore_lines: Some(vec!["*.tmp".to_string()]),
                    gitignore_lines: Some(vec!["*.log".to_string()]),
                },
            },
            dir_record(
                "/r/report",
                listing(vec![file("data.csv", "/r/report/data.csv"), file("report2", "/r/report/report2")]),
            ),
        ],
        files: vec![],
    };
    let engine = SearchEngine::new();
    let found = engine.search_files_snapshot(&tree, "/r".to_string(), "^\\.?report".to_string()).unwrap();
    assert_eq!(
        found,
        vec!["/r/report.txt".to_string(), "/r/report/report2".to_string()]
    );
    let r = engine.search_files_snapshot(&tree, "/r".to_string(), "(".to_string());
    assert!(matches!(r, Err(SearchError::InvalidPattern)));
    let r = engine.search_files_snapshot(&tree, "/x".to_string(), "a".to_string());
    assert!(matches!(r, Err(SearchError::PathNotFound)));
}

fn chain(depth: usize) -> (TreeSnapshot, String) {
    let mut dirs = Vec::new();
    let mut files = Vec::new();
    let mut path = "/r".to_string();
    for level in 0..depth {
        let below = format!("{}/d{}", path, level);
        let here = format!("{}/f{}.txt", path, level);
        dirs.push(dir_record(
            &path,
            listing(vec![dir(&format!("d{}", level), &below), file(&format!("f{}.txt", level), &here)]),
        ));
        files.push(file_record(&here, b"nothing here\n"));
        path = below;
    }
    let deepest = format!("{}/needle.txt", path);
    dirs.push(dir_record(&path, listing(vec![file("needle.txt", &deepest)])));
    files.push(file_record(&deepest, b"a\nthe needle\n"));
    (TreeSnapshot { dirs, files }, deepest)
}

#[test]
fn without_a_depth_limit_every_depth_is_reached() {
    let engine = SearchEngine::new();
    for depth in [0usize, 1, 2, 7, 40] {
        let (tree, deepest) = chain(depth);
        let found = engine.search_snapshot(&tree, "/r".to_string(), "needle".to_string(), None).unwrap();
        assert_eq!(found.len(), 1);
        assert_eq!(found[0].file_path, deepest);
        assert_eq!(found[0].matches[0].line_number, 2);
        let names = engine.search_files_snapshot(&tree, "/r".to_string(), "^needle".to_string()).unwrap();
        assert_eq!(names, vec![deepest.clone()]);

        let mut limited = SearchOptions::default();
        limited.max_depth = Some(depth as i32);
        let found =
            engine.search_snapshot(&tree, "/r".to_string(), "needle".to_string(), Some(limited)).unwrap();
        assert_eq!(found.len(), 1);
        if depth > 0 {
            let mut short = SearchOptions::default();
            short.max_depth = Some(depth as i32 - 1);
            let found =
                engine.search_snapshot(&tree, "/r".to_string(), "needle".to_string(), Some(short)).unwrap();
            assert!(found.is_empty());
        }
    }
}

fn link(name: &str, real_path: &str) -> DirEntry {
    DirEntry { name: name.to_string(), kind: EntryKind::Other, real_path: real_path.to_string() }
}

#[test]
fn a_link_beside_its_target_changes_nothing() {
    let tree = TreeSnapshot {
        dirs: vec![
            dir_record(
                "/r",
                listing(vec![
                    link("up", "/r"),
                    link("also.txt", "/r/sub/deep/needle.txt"),
                    dir("sub", "/r/sub"),
                ]),
            ),
            dir_record("/r/sub", listing(vec![link("same", "/r/sub/deep"), dir("deep", "/r/sub/deep")])),
            dir_record("/r/sub/deep", listing(vec![file("needle.txt", "/r/sub/deep/needle.txt")])),
        ],
        files: vec![file_record("/r/sub/deep/needle.txt", b"the needle\n")],
    };
    let engine = SearchEngine::new();
    let found = engine.search_snapshot(&tree, "/r".to_string(), "needle".to_string(), None).unwrap();
    assert_eq!(found.len(), 1);
    assert_eq!(found[0].file_path, "/r/sub/deep/needle.txt");
    assert_eq!(found[0].matches[0].column_start, 4);
    assert_eq!(found[0].matches[0].column_end, 10);
    let names = engine.search_files_snapshot(&tree, "/r".to_string(), "txt$".to_string()).unwrap();
    assert_eq!(names, vec!["/r/sub/deep/needle.txt".to_string()]);
}

#[test]
fn what_lies_below_a_hidden_directory_is_never_found() {
    let tree = TreeSnapshot {
        dirs: vec![
            dir_record("/r", listing(vec![dir("src", "/r/src"), file("a.txt", "/r/a.txt")])),
            dir_record("/r/src", listing(vec![dir(".cache", "/r/src/.cache"), file(".env", "/r/src/.env")])),
            dir_record("/r/src/.cache", listing(vec![dir("deep", "/r/src/.cache/deep")])),
            dir_record("/r/src/.cache/deep", listing(vec![file("b.txt", "/r/src/.cache/deep/b.txt")])),
        ],
        files: vec![
            file_record("/r/a.txt", b"needle\n"),
            file_record("/r/src/.env", b"needle\n"),
            file_record("/r/src/.cache/deep/b.txt", b"needle\n"),
        ],
    };
    let engine = SearchEngine::new();
    let found = engine.search_snapshot(&tree, "/r".to_string(), "needle".to_string(), None).unwrap();
    assert_eq!(found.len(), 1);
    assert_eq!(found[0].file_path, "/r/a.txt");
    let names = engine.search_files_snapshot(&tree, "/r".to_string(), "txt$".to_string()).unwrap();
    assert_eq!(names, vec!["/r/a.txt".to_string()]);

    let mut all = SearchOptions::default();
    all.include_hidden = Some(true);
    let found = engine.search_snapshot(&tree, "/r".to_string(), "needle".to_string(), Some(all)).unwrap();
    let mut paths: Vec<&str> = found.iter().map(|r| r.file_path.as_str()).collect();
    paths.sort();
    assert_eq!(paths, vec!["/r/a.txt", "/r/src/.cache/deep/b.txt", "/r/src/.env"]);
}
