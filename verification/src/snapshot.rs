//! A search over a tree that is held in memory, run to its end: the walk
//! takes one directory after the other, in the order in which they were
//! found, and every file let through is scanned at once.

use vstd::prelude::*;
use crate::content::file_matches;
use crate::engine::{
    content_request_error, folds_case, name_request_error, options_or_default, ContentSearch,
    FileSearch, RootStatus, SearchEngine,
};
use crate::error::SearchError;
use crate::filter::{filter_model, name_search_model, FilterModel};
use crate::options::SearchOptions;
use crate::pattern::{effective_pattern, text_is_match};
use crate::results::{
    has_path, lemma_offer_ok, offer, result_models, results_ok, ResultModel, SearchResult,
};
use crate::walk::{
    after_handing_out, candidate_models, candidate_ok, dir_ok, lemma_sift_laws, lemma_sift_uses_up,
    quiescent, root_dir, scoped_dir, sift, Candidate, CandidateModel, DirListing, DirModel, EntryModel,
    ListingModel, WalkModel,
};

verus! {

/// A directory of the tree: its canonical path and what it holds.
pub struct DirRecord {
    pub real_path: String,
    pub listing: DirListing,
}

/// A readable file of the tree: its canonical path and its content.
pub struct FileRecord {
    pub real_path: String,
    pub content: Vec<u8>,
}

/// A tree held in memory. A directory or file that is entered twice counts
/// as its first record. A directory without a record cannot be listed, and
/// a file without a record cannot be read.
pub struct TreeSnapshot {
    pub dirs: Vec<DirRecord>,
    pub files: Vec<FileRecord>,
}

/// What a [`TreeSnapshot`] says.
pub ghost struct TreeModel {
    pub dirs: Seq<(Seq<char>, ListingModel)>,
    pub files: Seq<(Seq<char>, Seq<u8>)>,
}

impl View for TreeSnapshot {
    type V = TreeModel;

    open spec fn view(&self) -> TreeModel {
        TreeModel {
            dirs: Seq::new(self.dirs@.len(), |i: int| (self.dirs@[i].real_path@, self.dirs@[i].listing@)),
            files: Seq::new(
                self.files@.len(),
                |i: int| (self.files@[i].real_path@, self.files@[i].content@),
            ),
        }
    }
}

/// What the first record with the path `path` holds, if there is one.
pub open spec fn record_at<T>(records: Seq<(Seq<char>, T)>, path: Seq<char>) -> Option<T>
    decreases records.len(),
{
    if records.len() == 0 {
        None
    } else if records[0].0 == path {
        Some(records[0].1)
    } else {
        record_at(records.skip(1), path)
    }
}

/// What the caller finds at `path`.
pub open spec fn status_at(tree: TreeModel, path: Seq<char>) -> RootStatus {
    if record_at(tree.dirs, path) is Some {
        RootStatus::Directory
    } else if record_at(tree.files, path) is Some {
        RootStatus::NotDirectory
    } else {
        RootStatus::Missing
    }
}

/// The real paths that the entries of all directories name, with repeats.
pub open spec fn named_paths(dirs: Seq<(Seq<char>, ListingModel)>) -> Seq<Seq<char>>
    decreases dirs.len(),
{
    if dirs.len() == 0 {
        Seq::empty()
    } else {
        named_paths(dirs.drop_last()) + Seq::new(
            dirs.last().1.entries.len(),
            |j: int| dirs.last().1.entries[j].real_path,
        )
    }
}

/// All real paths that a walk over the tree can come across.
pub open spec fn universe(tree: TreeModel) -> Set<Seq<char>> {
    named_paths(tree.dirs).to_set()
}

/// The state of a walk that goes one directory at a time.
pub ghost struct Frontier {
    /// The directories that wait to be listed, first in first out.
    pub pending: Seq<DirModel>,
    /// The real paths of everything let through so far.
    pub seen: Set<Seq<char>>,
    /// The results so far.
    pub results: Seq<ResultModel>,
}

/// The aggregate after the files `files` were scanned and their results
/// offered, in order. A file that cannot be read is passed over.
pub open spec fn scan_all(
    results: Seq<ResultModel>,
    files: Seq<CandidateModel>,
    tree: TreeModel,
    pattern: Seq<char>,
) -> Seq<ResultModel>
    decreases files.len(),
{
    if files.len() == 0 {
        results
    } else {
        let before = scan_all(results, files.drop_last(), tree, pattern);
        match record_at(tree.files, files.last().real_path) {
            Some(bytes) => offer(
                before,
                ResultModel { file_path: files.last().real_path, matches: file_matches(pattern, bytes) },
            ),
            None => before,
        }
    }
}

/// The state after the directory that waited longest was listed and its
/// files were scanned. A directory that cannot be listed brings nothing.
pub open spec fn advance(m: FilterModel, pattern: Seq<char>, tree: TreeModel, f: Frontier) -> Frontier {
    let dir = f.pending[0];
    match record_at(tree.dirs, dir.real_path) {
        Some(l) => {
            let s = sift(m, scoped_dir(m, dir, l.ignore_lines, l.gitignore_lines), l.entries, f.seen);
            Frontier {
                pending: f.pending.skip(1) + s.dirs,
                seen: s.seen,
                results: scan_all(f.results, s.files, tree, pattern),
            }
        },
        None => Frontier { pending: f.pending.skip(1), ..f },
    }
}

/// The state after at most `steps` directories were listed, or fewer if no
/// directory waits any more.
pub open spec fn run(m: FilterModel, pattern: Seq<char>, tree: TreeModel, f: Frontier, steps: nat) -> Frontier
    decreases steps,
{
    if steps == 0 || f.pending.len() == 0 {
        f
    } else {
        run(m, pattern, tree, advance(m, pattern, tree, f), (steps - 1) as nat)
    }
}

/// The state in which a walk starts.
pub open spec fn start(root_real_path: Seq<char>) -> Frontier {
    Frontier {
        pending: seq![root_dir(root_real_path)],
        seen: Set::empty().insert(root_real_path),
        results: Seq::empty(),
    }
}

/// A number of steps within which every walk over the tree is over.
pub open spec fn enough_steps(tree: TreeModel) -> nat {
    universe(tree).len() + 1
}

/// The results of a content search over the tree.
pub open spec fn snapshot_results(
    m: FilterModel,
    pattern: Seq<char>,
    tree: TreeModel,
    root_real_path: Seq<char>,
) -> Seq<ResultModel> {
    run(m, pattern, tree, start(root_real_path), enough_steps(tree)).results
}

/// What is left to do: a number that every step makes smaller.
pub open spec fn left_to_do(tree: TreeModel, f: Frontier) -> nat {
    universe(tree).difference(f.seen).len() + f.pending.len()
}

/// Every real path that a listing of the tree names belongs to the
/// universe.
pub proof fn lemma_listing_in_universe(dirs: Seq<(Seq<char>, ListingModel)>, path: Seq<char>)
    requires
        record_at(dirs, path) is Some,
    ensures
        forall|j: int|
            0 <= j < record_at(dirs, path)->0.entries.len() ==> named_paths(dirs).to_set().contains(
                (#[trigger] record_at(dirs, path)->0.entries[j]).real_path,
            ),
{
    let l = record_at(dirs, path)->0;
    let k = choose_record(dirs, path);
    lemma_record_index(dirs, path);
    lemma_named_paths_hold(dirs, k);
    assert forall|j: int| 0 <= j < l.entries.len() implies named_paths(dirs).to_set().contains(
        (#[trigger] l.entries[j]).real_path,
    ) by {
        assert(named_paths(dirs).contains(dirs[k].1.entries[j].real_path));
    }
}

/// The index of the first record with the path `path`.
pub open spec fn choose_record<T>(records: Seq<(Seq<char>, T)>, path: Seq<char>) -> int
    decreases records.len(),
{
    if records.len() == 0 {
        -1
    } else if records[0].0 == path {
        0
    } else if record_at(records.skip(1), path) is Some {
        1 + choose_record(records.skip(1), path)
    } else {
        -1
    }
}

/// Where a record is found, it is found at an index of the sequence.
pub proof fn lemma_record_index<T>(records: Seq<(Seq<char>, T)>, path: Seq<char>)
    ensures
        record_at(records, path) is Some ==> {
            let k = choose_record(records, path);
            0 <= k < records.len() && records[k].0 == path && record_at(records, path) == Some(
                records[k].1,
            )
        },
        record_at(records, path) is None ==> forall|i: int|
            0 <= i < records.len() ==> (#[trigger] records[i]).0 != path,
    decreases records.len(),
{
    if records.len() > 0 && records[0].0 != path {
        lemma_record_index(records.skip(1), path);
        if record_at(records, path) is None {
            assert forall|i: int| 0 <= i < records.len() implies (#[trigger] records[i]).0 != path by {
                if i > 0 {
                    assert(records.skip(1)[i - 1] == records[i]);
                }
            }
        }
    }
}

/// The real paths of the entries of every directory are among the paths
/// named.
proof fn lemma_named_paths_hold(dirs: Seq<(Seq<char>, ListingModel)>, k: int)
    requires
        0 <= k < dirs.len(),
    ensures
        forall|j: int|
            0 <= j < dirs[k].1.entries.len() ==> named_paths(dirs).contains(
                (#[trigger] dirs[k].1.entries[j]).real_path,
            ),
    decreases dirs.len(),
{
    let init = named_paths(dirs.drop_last());
    let tail = Seq::new(dirs.last().1.entries.len(), |j: int| dirs.last().1.entries[j].real_path);
    if k == dirs.len() - 1 {
        assert forall|j: int| 0 <= j < dirs[k].1.entries.len() implies named_paths(dirs).contains(
            (#[trigger] dirs[k].1.entries[j]).real_path,
        ) by {
            assert((init + tail)[init.len() + j] == tail[j]);
        }
    } else {
        lemma_named_paths_hold(dirs.drop_last(), k);
        assert forall|j: int| 0 <= j < dirs[k].1.entries.len() implies named_paths(dirs).contains(
            (#[trigger] dirs[k].1.entries[j]).real_path,
        ) by {
            let p = dirs[k].1.entries[j].real_path;
            assert(dirs.drop_last()[k] == dirs[k]);
            assert(init.contains(p));
            let i = choose|i: int| 0 <= i < init.len() && init[i] == p;
            assert((init + tail)[i] == p);
        }
    }
}

/// Listing one more directory leaves less to do.
pub proof fn lemma_advance_leaves_less(m: FilterModel, pattern: Seq<char>, tree: TreeModel, f: Frontier)
    requires
        f.pending.len() > 0,
    ensures
        left_to_do(tree, advance(m, pattern, tree, f)) < left_to_do(tree, f),
{
    let dir = f.pending[0];
    vstd::seq_lib::seq_to_set_is_finite(named_paths(tree.dirs));
    match record_at(tree.dirs, dir.real_path) {
        Some(l) => {
            lemma_listing_in_universe(tree.dirs, dir.real_path);
            lemma_sift_uses_up(
                m,
                scoped_dir(m, dir, l.ignore_lines, l.gitignore_lines),
                l.entries,
                f.seen,
                universe(tree),
            );
        },
        None => {},
    }
}

/// A walk with enough steps ends: no directory waits any more.
pub proof fn lemma_run_ends(m: FilterModel, pattern: Seq<char>, tree: TreeModel, f: Frontier, steps: nat)
    requires
        left_to_do(tree, f) <= steps,
    ensures
        run(m, pattern, tree, f, steps).pending.len() == 0,
    decreases steps,
{
    if steps > 0 && f.pending.len() > 0 {
        lemma_advance_leaves_less(m, pattern, tree, f);
        lemma_run_ends(m, pattern, tree, advance(m, pattern, tree, f), (steps - 1) as nat);
    }
}

/// The steps allowed to a search over a tree are enough.
pub proof fn lemma_enough_steps(tree: TreeModel, root_real_path: Seq<char>)
    ensures
        left_to_do(tree, start(root_real_path)) <= enough_steps(tree),
{
    vstd::seq_lib::seq_to_set_is_finite(named_paths(tree.dirs));
    vstd::set_lib::lemma_len_subset(
        universe(tree).difference(start(root_real_path).seen),
        universe(tree),
    );
}

/// A search over a tree held in memory always ends, links and loops
/// notwithstanding: when its steps are used up, no directory waits.
pub proof fn lemma_search_ends(
    m: FilterModel,
    pattern: Seq<char>,
    tree: TreeModel,
    root_real_path: Seq<char>,
)
    ensures
        run(m, pattern, tree, start(root_real_path), enough_steps(tree)).pending.len() == 0,
{
    lemma_enough_steps(tree, root_real_path);
    lemma_run_ends(m, pattern, tree, start(root_real_path), enough_steps(tree));
}

/// What holds of a search at every step: the results are sound, each is
/// for a file that was let through, and each directory that waits obeys the
/// filter's laws.
pub open spec fn frontier_ok(m: FilterModel, f: Frontier) -> bool {
    &&& results_ok(f.results)
    &&& forall|k: int| 0 <= k < f.results.len() ==> f.seen.contains((#[trigger] f.results[k]).file_path)
    &&& forall|i: int| 0 <= i < f.pending.len() ==> dir_ok(m, #[trigger] f.pending[i])
}

/// Scanning files whose real paths are new and differ from each other
/// keeps the results sound, and every result is for one of those files or
/// was there before.
pub proof fn lemma_scan_all_ok(
    results: Seq<ResultModel>,
    files: Seq<CandidateModel>,
    tree: TreeModel,
    pattern: Seq<char>,
)
    requires
        results_ok(results),
    ensures
        results_ok(scan_all(results, files, tree, pattern)),
        forall|k: int|
            0 <= k < scan_all(results, files, tree, pattern).len() ==> has_path(
                results,
                (#[trigger] scan_all(results, files, tree, pattern)[k]).file_path,
            ) || exists|j: int|
                0 <= j < files.len() && (#[trigger] files[j]).real_path == scan_all(
                    results,
                    files,
                    tree,
                    pattern,
                )[k].file_path,
    decreases files.len(),
{
    let out = scan_all(results, files, tree, pattern);
    if files.len() > 0 {
        let init = files.drop_last();
        let before = scan_all(results, init, tree, pattern);
        lemma_scan_all_ok(results, init, tree, pattern);
        match record_at(tree.files, files.last().real_path) {
            Some(bytes) => {
                let r = ResultModel {
                    file_path: files.last().real_path,
                    matches: file_matches(pattern, bytes),
                };
                lemma_offer_ok(before, r);
            },
            None => {},
        }
        assert forall|k: int| 0 <= k < out.len() implies has_path(results, (#[trigger] out[k]).file_path)
            || exists|j: int| 0 <= j < files.len() && (#[trigger] files[j]).real_path == out[k].file_path by {
            if k < before.len() {
                assert(out[k] == before[k]);
                if !has_path(results, before[k].file_path) {
                    let j = choose|j: int|
                        0 <= j < init.len() && (#[trigger] init[j]).real_path == before[k].file_path;
                    assert(files[j] == init[j]);
                }
            } else {
                assert(files[files.len() - 1].real_path == out[k].file_path);
            }
        }
    } else {
        assert forall|k: int| 0 <= k < out.len() implies has_path(results, (#[trigger] out[k]).file_path)
            || exists|j: int| 0 <= j < files.len() && (#[trigger] files[j]).real_path == out[k].file_path by {
            assert(results[k].file_path == out[k].file_path);
        }
    }
}

/// Listing one more directory keeps a search sound.
pub proof fn lemma_advance_ok(m: FilterModel, pattern: Seq<char>, tree: TreeModel, f: Frontier)
    requires
        frontier_ok(m, f),
        f.pending.len() > 0,
    ensures
        frontier_ok(m, advance(m, pattern, tree, f)),
{
    let dir = f.pending[0];
    let next = advance(m, pattern, tree, f);
    match record_at(tree.dirs, dir.real_path) {
        Some(l) => {
            let d = scoped_dir(m, dir, l.ignore_lines, l.gitignore_lines);
            let s = sift(m, d, l.entries, f.seen);
            assert(dir_ok(m, d));
            lemma_sift_laws(m, d, l.entries, f.seen);
            lemma_scan_all_ok(f.results, s.files, tree, pattern);
            assert forall|k: int| 0 <= k < next.results.len() implies next.seen.contains(
                (#[trigger] next.results[k]).file_path,
            ) by {
                let p = next.results[k].file_path;
                if has_path(f.results, p) {
                    let i = choose|i: int| 0 <= i < f.results.len() && (#[trigger] f.results[i]).file_path == p;
                    assert(f.seen.contains(p));
                } else {
                    let j = choose|j: int| 0 <= j < s.files.len() && (#[trigger] s.files[j]).real_path == p;
                    assert(s.seen.contains(s.files[j].real_path));
                }
            }
            assert forall|i: int| 0 <= i < next.pending.len() implies dir_ok(m, #[trigger] next.pending[i]) by {
                if i < f.pending.len() - 1 {
                    assert(next.pending[i] == f.pending[i + 1]);
                } else {
                    assert(next.pending[i] == s.dirs[i - (f.pending.len() - 1)]);
                }
            }
        },
        None => {
            assert forall|i: int| 0 <= i < next.pending.len() implies dir_ok(m, #[trigger] next.pending[i]) by {
                assert(next.pending[i] == f.pending[i + 1]);
            }
        },
    }
}

/// A search stays sound through all its steps.
pub proof fn lemma_run_ok(m: FilterModel, pattern: Seq<char>, tree: TreeModel, f: Frontier, steps: nat)
    requires
        frontier_ok(m, f),
    ensures
        frontier_ok(m, run(m, pattern, tree, f, steps)),
    decreases steps,
{
    if steps > 0 && f.pending.len() > 0 {
        lemma_advance_ok(m, pattern, tree, f);
        lemma_run_ok(m, pattern, tree, advance(m, pattern, tree, f), (steps - 1) as nat);
    }
}

/// The results of a search over a tree held in memory are sound: every
/// result has a match, and no two results are for the same file.
pub proof fn lemma_snapshot_results_ok(
    m: FilterModel,
    pattern: Seq<char>,
    tree: TreeModel,
    root_real_path: Seq<char>,
)
    ensures
        results_ok(snapshot_results(m, pattern, tree, root_real_path)),
{
    let f = start(root_real_path);
    assert(dir_ok(m, f.pending[0])) by {
        assert(crate::walk::path_of(Seq::<Seq<char>>::empty()) =~= Seq::<char>::empty());
    }
    lemma_run_ok(m, pattern, tree, f, enough_steps(tree));
}

/// The files that listing the directory that waited longest lets through;
/// none if the directory cannot be listed.
pub open spec fn files_here(m: FilterModel, tree: TreeModel, f: Frontier) -> Seq<CandidateModel> {
    match record_at(tree.dirs, f.pending[0].real_path) {
        Some(l) => sift(
            m,
            scoped_dir(m, f.pending[0], l.ignore_lines, l.gitignore_lines),
            l.entries,
            f.seen,
        ).files,
        None => Seq::empty(),
    }
}

/// The files that a walk lets through in at most `steps` steps, in the
/// order in which they are found: the files that go on to matching.
pub open spec fn found_files(
    m: FilterModel,
    pattern: Seq<char>,
    tree: TreeModel,
    f: Frontier,
    steps: nat,
) -> Seq<CandidateModel>
    decreases steps,
{
    if steps == 0 || f.pending.len() == 0 {
        Seq::empty()
    } else {
        files_here(m, tree, f) + found_files(
            m,
            pattern,
            tree,
            advance(m, pattern, tree, f),
            (steps - 1) as nat,
        )
    }
}

/// The files that a search over the tree lets through: those that no rule
/// of the filter shuts out, each once.
pub open spec fn eligible_files(m: FilterModel, tree: TreeModel, root_real_path: Seq<char>) -> Seq<
    CandidateModel,
> {
    found_files(m, Seq::empty(), tree, start(root_real_path), enough_steps(tree))
}

/// The result of scanning one file that can be read.
pub open spec fn result_of(c: CandidateModel, tree: TreeModel, pattern: Seq<char>) -> ResultModel {
    ResultModel {
        file_path: c.real_path,
        matches: file_matches(pattern, record_at(tree.files, c.real_path)->0),
    }
}

/// The results of scanning each of `files`.
pub open spec fn results_for(files: Seq<CandidateModel>, tree: TreeModel, pattern: Seq<char>) -> Seq<
    ResultModel,
> {
    Seq::new(files.len(), |i: int| result_of(files[i], tree, pattern))
}

/// Whether each of `files` can be read and holds at least one match.
pub open spec fn all_hit(files: Seq<CandidateModel>, tree: TreeModel, pattern: Seq<char>) -> bool {
    forall|i: int|
        0 <= i < files.len() ==> record_at(tree.files, (#[trigger] files[i]).real_path) is Some
            && result_of(files[i], tree, pattern).matches.len() > 0
}

/// Which files a walk lets through does not depend on the pattern, nor on
/// the results held.
pub proof fn lemma_found_files_by_walk_alone(
    m: FilterModel,
    one: Seq<char>,
    other: Seq<char>,
    tree: TreeModel,
    f1: Frontier,
    f2: Frontier,
    steps: nat,
)
    requires
        f1.pending == f2.pending,
        f1.seen == f2.seen,
    ensures
        found_files(m, one, tree, f1, steps) == found_files(m, other, tree, f2, steps),
    decreases steps,
{
    if steps > 0 && f1.pending.len() > 0 {
        lemma_found_files_by_walk_alone(
            m,
            one,
            other,
            tree,
            advance(m, one, tree, f1),
            advance(m, other, tree, f2),
            (steps - 1) as nat,
        );
    }
}

/// Where every file scanned holds a match, and none of them has a result
/// yet or comes twice, each adds its result at the end.
pub proof fn lemma_scan_all_exact(
    results: Seq<ResultModel>,
    files: Seq<CandidateModel>,
    tree: TreeModel,
    pattern: Seq<char>,
)
    requires
        all_hit(files, tree, pattern),
        forall|j: int| 0 <= j < files.len() ==> !has_path(results, (#[trigger] files[j]).real_path),
        forall|i: int, j: int|
            0 <= i < j < files.len() ==> (#[trigger] files[i]).real_path != (#[trigger] files[j]).real_path,
    ensures
        scan_all(results, files, tree, pattern) == results + results_for(files, tree, pattern),
    decreases files.len(),
{
    if files.len() > 0 {
        let init = files.drop_last();
        let last = files.last();
        assert forall|i: int| 0 <= i < init.len() implies record_at(
            tree.files,
            (#[trigger] init[i]).real_path,
        ) is Some && result_of(init[i], tree, pattern).matches.len() > 0 by {
            assert(init[i] == files[i]);
        }
        assert forall|j: int| 0 <= j < init.len() implies !has_path(results, (#[trigger] init[j]).real_path) by {
            assert(init[j] == files[j]);
        }
        assert forall|i: int, j: int| 0 <= i < j < init.len() implies (#[trigger] init[i]).real_path != (
        #[trigger] init[j]).real_path by {
            assert(init[i] == files[i] && init[j] == files[j]);
        }
        lemma_scan_all_exact(results, init, tree, pattern);
        let before = scan_all(results, init, tree, pattern);
        assert(files[files.len() - 1] == last);
        assert(!has_path(before, last.real_path)) by {
            if has_path(before, last.real_path) {
                let k = choose|k: int| 0 <= k < before.len() && (#[trigger] before[k]).file_path == last.real_path;
                if k < results.len() {
                    assert(results[k].file_path == last.real_path);
                } else {
                    assert(before[k] == result_of(init[k - results.len()], tree, pattern));
                    assert(init[k - results.len()] == files[k - results.len()]);
                }
            }
        }
        assert(results + results_for(files, tree, pattern) =~= (results + results_for(
            init,
            tree,
            pattern,
        )).push(result_of(last, tree, pattern)));
    } else {
        assert(results + results_for(files, tree, pattern) =~= results);
    }
}

/// Where every file that a walk lets through holds a match, the walk adds
/// one result for each of them, in the order in which they are found.
pub proof fn lemma_run_exact(m: FilterModel, pattern: Seq<char>, tree: TreeModel, f: Frontier, steps: nat)
    requires
        frontier_ok(m, f),
        all_hit(found_files(m, pattern, tree, f, steps), tree, pattern),
    ensures
        run(m, pattern, tree, f, steps).results == f.results + results_for(
            found_files(m, pattern, tree, f, steps),
            tree,
            pattern,
        ),
    decreases steps,
{
    let all = found_files(m, pattern, tree, f, steps);
    if steps > 0 && f.pending.len() > 0 {
        let dir = f.pending[0];
        let next = advance(m, pattern, tree, f);
        let rest = found_files(m, pattern, tree, next, (steps - 1) as nat);
        let here = files_here(m, tree, f);
        assert(all == here + rest);
        assert forall|i: int| 0 <= i < rest.len() implies record_at(
            tree.files,
            (#[trigger] rest[i]).real_path,
        ) is Some && result_of(rest[i], tree, pattern).matches.len() > 0 by {
            assert(all[here.len() + i] == rest[i]);
        }
        assert forall|i: int| 0 <= i < here.len() implies record_at(
            tree.files,
            (#[trigger] here[i]).real_path,
        ) is Some && result_of(here[i], tree, pattern).matches.len() > 0 by {
            assert(all[i] == here[i]);
        }
        lemma_advance_ok(m, pattern, tree, f);
        lemma_run_exact(m, pattern, tree, next, (steps - 1) as nat);
        match record_at(tree.dirs, dir.real_path) {
            Some(l) => {
                let d = scoped_dir(m, dir, l.ignore_lines, l.gitignore_lines);
                lemma_sift_laws(m, d, l.entries, f.seen);
                assert forall|j: int| 0 <= j < here.len() implies !has_path(
                    f.results,
                    (#[trigger] here[j]).real_path,
                ) by {
                    if has_path(f.results, here[j].real_path) {
                        let k = choose|k: int|
                            0 <= k < f.results.len() && (#[trigger] f.results[k]).file_path == here[j].real_path;
                        assert(f.seen.contains(f.results[k].file_path));
                    }
                }
                lemma_scan_all_exact(f.results, here, tree, pattern);
            },
            None => {
                assert(f.results + results_for(here, tree, pattern) =~= f.results);
            },
        }
        assert(f.results + results_for(all, tree, pattern) =~= (f.results + results_for(
            here,
            tree,
            pattern,
        )) + results_for(rest, tree, pattern));
    } else {
        assert(f.results + results_for(all, tree, pattern) =~= f.results);
    }
}

/// Where each of the files that take part in a search can be read and
/// holds exactly one matching line, the search gives exactly one result
/// for each of them, each with exactly one match.
pub proof fn lemma_one_result_per_file(
    m: FilterModel,
    pattern: Seq<char>,
    tree: TreeModel,
    root_real_path: Seq<char>,
)
    requires
        forall|i: int|
            0 <= i < eligible_files(m, tree, root_real_path).len() ==> record_at(
                tree.files,
                (#[trigger] eligible_files(m, tree, root_real_path)[i]).real_path,
            ) is Some && result_of(
                eligible_files(m, tree, root_real_path)[i],
                tree,
                pattern,
            ).matches.len() == 1,
    ensures
        snapshot_results(m, pattern, tree, root_real_path).len() == eligible_files(
            m,
            tree,
            root_real_path,
        ).len(),
        forall|k: int|
            0 <= k < snapshot_results(m, pattern, tree, root_real_path).len() ==> {
                let r = #[trigger] snapshot_results(m, pattern, tree, root_real_path)[k];
                r.matches.len() == 1 && r.file_path == eligible_files(m, tree, root_real_path)[k].real_path
            },
{
    let f = start(root_real_path);
    let files = eligible_files(m, tree, root_real_path);
    lemma_found_files_by_walk_alone(m, pattern, Seq::empty(), tree, f, f, enough_steps(tree));
    assert(dir_ok(m, f.pending[0])) by {
        assert(crate::walk::path_of(Seq::<Seq<char>>::empty()) =~= Seq::<char>::empty());
    }
    lemma_run_exact(m, pattern, tree, f, enough_steps(tree));
    assert(f.results + results_for(files, tree, pattern) =~= results_for(files, tree, pattern));
}

/// Whether a result is the result of scanning one of `files`.
pub open spec fn scanned_from(
    r: ResultModel,
    files: Seq<CandidateModel>,
    tree: TreeModel,
    pattern: Seq<char>,
) -> bool {
    exists|i: int|
        0 <= i < files.len() && record_at(tree.files, (#[trigger] files[i]).real_path) is Some && r
            == result_of(files[i], tree, pattern)
}

/// Every file that a walk lets through obeys the filter's laws, was not
/// seen before, and is let through once only.
pub proof fn lemma_found_files_laws(
    m: FilterModel,
    pattern: Seq<char>,
    tree: TreeModel,
    f: Frontier,
    steps: nat,
)
    requires
        forall|i: int| 0 <= i < f.pending.len() ==> dir_ok(m, #[trigger] f.pending[i]),
    ensures
        forall|i: int|
            0 <= i < found_files(m, pattern, tree, f, steps).len() ==> candidate_ok(
                m,
                #[trigger] found_files(m, pattern, tree, f, steps)[i],
            ) && !f.seen.contains(found_files(m, pattern, tree, f, steps)[i].real_path),
        forall|i: int, j: int|
            0 <= i < j < found_files(m, pattern, tree, f, steps).len() ==> (#[trigger] found_files(
                m,
                pattern,
                tree,
                f,
                steps,
            )[i]).real_path != (#[trigger] found_files(m, pattern, tree, f, steps)[j]).real_path,
    decreases steps,
{
    let all = found_files(m, pattern, tree, f, steps);
    if steps > 0 && f.pending.len() > 0 {
        let dir = f.pending[0];
        let next = advance(m, pattern, tree, f);
        let rest = found_files(m, pattern, tree, next, (steps - 1) as nat);
        let here = files_here(m, tree, f);
        assert(all == here + rest);
        match record_at(tree.dirs, dir.real_path) {
            Some(l) => {
                let d = scoped_dir(m, dir, l.ignore_lines, l.gitignore_lines);
                let s = sift(m, d, l.entries, f.seen);
                assert(dir_ok(m, d));
                lemma_sift_laws(m, d, l.entries, f.seen);
                assert forall|i: int| 0 <= i < next.pending.len() implies dir_ok(m, #[trigger] next.pending[i]) by {
                    if i < f.pending.len() - 1 {
                        assert(next.pending[i] == f.pending[i + 1]);
                    } else {
                        assert(next.pending[i] == s.dirs[i - (f.pending.len() - 1)]);
                    }
                }
            },
            None => {
                assert forall|i: int| 0 <= i < next.pending.len() implies dir_ok(m, #[trigger] next.pending[i]) by {
                    assert(next.pending[i] == f.pending[i + 1]);
                }
            },
        }
        lemma_found_files_laws(m, pattern, tree, next, (steps - 1) as nat);
        assert(f.seen.subset_of(next.seen));
        assert forall|i: int| 0 <= i < all.len() implies candidate_ok(m, #[trigger] all[i])
            && !f.seen.contains(all[i].real_path) by {
            if i < here.len() {
                assert(all[i] == here[i]);
            } else {
                assert(all[i] == rest[i - here.len()]);
            }
        }
        assert forall|i: int, j: int| 0 <= i < j < all.len() implies (#[trigger] all[i]).real_path != (
        #[trigger] all[j]).real_path by {
            if j < here.len() {
                assert(all[i] == here[i] && all[j] == here[j]);
            } else if i < here.len() {
                assert(all[i] == here[i] && all[j] == rest[j - here.len()]);
                assert(next.seen.contains(here[i].real_path));
            } else {
                assert(all[i] == rest[i - here.len()] && all[j] == rest[j - here.len()]);
            }
        }
    }
}

/// Every result that scanning adds is the result of one of the files
/// scanned.
pub proof fn lemma_scan_all_sound(
    results: Seq<ResultModel>,
    files: Seq<CandidateModel>,
    tree: TreeModel,
    pattern: Seq<char>,
)
    ensures
        results.len() <= scan_all(results, files, tree, pattern).len(),
        forall|k: int|
            0 <= k < results.len() ==> (#[trigger] scan_all(results, files, tree, pattern)[k]) == results[k],
        forall|k: int|
            results.len() <= k < scan_all(results, files, tree, pattern).len() ==> scanned_from(
                #[trigger] scan_all(results, files, tree, pattern)[k],
                files,
                tree,
                pattern,
            ),
    decreases files.len(),
{
    let out = scan_all(results, files, tree, pattern);
    if files.len() > 0 {
        let init = files.drop_last();
        let before = scan_all(results, init, tree, pattern);
        lemma_scan_all_sound(results, init, tree, pattern);
        assert forall|k: int| results.len() <= k < out.len() implies scanned_from(
            #[trigger] out[k],
            files,
            tree,
            pattern,
        ) by {
            if k < before.len() {
                assert(out[k] == before[k]);
                let i = choose|i: int|
                    0 <= i < init.len() && record_at(tree.files, (#[trigger] init[i]).real_path) is Some
                        && before[k] == result_of(init[i], tree, pattern);
                assert(files[i] == init[i]);
            } else {
                assert(out[k] == result_of(files[files.len() - 1], tree, pattern));
            }
        }
    }
}

/// Every result that a walk adds is the result of one of the files it let
/// through.
pub proof fn lemma_run_sound(m: FilterModel, pattern: Seq<char>, tree: TreeModel, f: Frontier, steps: nat)
    ensures
        f.results.len() <= run(m, pattern, tree, f, steps).results.len(),
        forall|k: int|
            f.results.len() <= k < run(m, pattern, tree, f, steps).results.len() ==> scanned_from(
                #[trigger] run(m, pattern, tree, f, steps).results[k],
                found_files(m, pattern, tree, f, steps),
                tree,
                pattern,
            ),
    decreases steps,
{
    let out = run(m, pattern, tree, f, steps).results;
    let all = found_files(m, pattern, tree, f, steps);
    if steps > 0 && f.pending.len() > 0 {
        let dir = f.pending[0];
        let next = advance(m, pattern, tree, f);
        let rest = found_files(m, pattern, tree, next, (steps - 1) as nat);
        let here = files_here(m, tree, f);
        assert(all == here + rest);
        lemma_run_sound(m, pattern, tree, next, (steps - 1) as nat);
        lemma_scan_all_sound(f.results, here, tree, pattern);
        lemma_run_keeps(m, pattern, tree, next, (steps - 1) as nat);
        assert forall|k: int| f.results.len() <= k < out.len() implies scanned_from(
            #[trigger] out[k],
            all,
            tree,
            pattern,
        ) by {
            if k < next.results.len() {
                assert(out[k] == next.results[k]);
                assert(scanned_from(next.results[k], here, tree, pattern));
                let i = choose|i: int|
                    0 <= i < here.len() && record_at(tree.files, (#[trigger] here[i]).real_path) is Some
                        && out[k] == result_of(here[i], tree, pattern);
                assert(all[i] == here[i]);
            } else {
                let i = choose|i: int|
                    0 <= i < rest.len() && record_at(tree.files, (#[trigger] rest[i]).real_path) is Some
                        && out[k] == result_of(rest[i], tree, pattern);
                assert(all[here.len() + i] == rest[i]);
            }
        }
    }
}

/// A walk never takes back or changes a result it holds.
pub proof fn lemma_run_keeps(m: FilterModel, pattern: Seq<char>, tree: TreeModel, f: Frontier, steps: nat)
    ensures
        f.results.len() <= run(m, pattern, tree, f, steps).results.len(),
        forall|k: int|
            0 <= k < f.results.len() ==> (#[trigger] run(m, pattern, tree, f, steps).results[k])
                == f.results[k],
    decreases steps,
{
    if steps > 0 && f.pending.len() > 0 {
        let next = advance(m, pattern, tree, f);
        lemma_run_keeps(m, pattern, tree, next, (steps - 1) as nat);
        match record_at(tree.dirs, f.pending[0].real_path) {
            Some(l) => {
                let s = sift(
                    m,
                    scoped_dir(m, f.pending[0], l.ignore_lines, l.gitignore_lines),
                    l.entries,
                    f.seen,
                );
                lemma_scan_all_sound(f.results, s.files, tree, pattern);
            },
            None => {},
        }
    }
}

/// The files that take part in a search obey the filter's laws: without
/// `include_hidden` no name on the way to a file is hidden, no file lies
/// beyond the depth limit, and no file takes part twice.
pub proof fn lemma_eligible_files_laws(m: FilterModel, tree: TreeModel, root_real_path: Seq<char>)
    ensures
        forall|i: int|
            0 <= i < eligible_files(m, tree, root_real_path).len() ==> candidate_ok(
                m,
                #[trigger] eligible_files(m, tree, root_real_path)[i],
            ),
        forall|i: int, j: int|
            0 <= i < j < eligible_files(m, tree, root_real_path).len() ==> (#[trigger] eligible_files(
                m,
                tree,
                root_real_path,
            )[i]).real_path != (#[trigger] eligible_files(m, tree, root_real_path)[j]).real_path,
{
    let f = start(root_real_path);
    assert(dir_ok(m, f.pending[0])) by {
        assert(crate::walk::path_of(Seq::<Seq<char>>::empty()) =~= Seq::<char>::empty());
    }
    lemma_found_files_laws(m, Seq::empty(), tree, f, enough_steps(tree));
}

/// Every result of a search is the result of a file that takes part, and
/// holds at least one match.
pub proof fn lemma_results_from_eligible_files(
    m: FilterModel,
    pattern: Seq<char>,
    tree: TreeModel,
    root_real_path: Seq<char>,
)
    ensures
        forall|k: int|
            0 <= k < snapshot_results(m, pattern, tree, root_real_path).len() ==> {
                let r = #[trigger] snapshot_results(m, pattern, tree, root_real_path)[k];
                r.matches.len() > 0 && scanned_from(
                    r,
                    eligible_files(m, tree, root_real_path),
                    tree,
                    pattern,
                )
            },
{
    let f = start(root_real_path);
    lemma_found_files_by_walk_alone(m, pattern, Seq::empty(), tree, f, f, enough_steps(tree));
    lemma_run_sound(m, pattern, tree, f, enough_steps(tree));
    lemma_snapshot_results_ok(m, pattern, tree, root_real_path);
}

/// No result of a search is for a file that holds a NUL byte, whatever
/// else the file holds.
pub proof fn lemma_binary_file_not_in_results(
    m: FilterModel,
    pattern: Seq<char>,
    tree: TreeModel,
    root_real_path: Seq<char>,
    path: Seq<char>,
)
    requires
        record_at(tree.files, path) matches Some(bytes) && bytes.contains(crate::content::NUL),
    ensures
        !has_path(snapshot_results(m, pattern, tree, root_real_path), path),
{
    let out = snapshot_results(m, pattern, tree, root_real_path);
    lemma_results_from_eligible_files(m, pattern, tree, root_real_path);
    if has_path(out, path) {
        let k = choose|k: int| 0 <= k < out.len() && (#[trigger] out[k]).file_path == path;
        assert(scanned_from(out[k], eligible_files(m, tree, root_real_path), tree, pattern));
    }
}

/// Scanning two runs of files one after the other is scanning them as one
/// run.
pub proof fn lemma_scan_all_joined(
    results: Seq<ResultModel>,
    a: Seq<CandidateModel>,
    b: Seq<CandidateModel>,
    tree: TreeModel,
    pattern: Seq<char>,
)
    ensures
        scan_all(results, a + b, tree, pattern) == scan_all(
            scan_all(results, a, tree, pattern),
            b,
            tree,
            pattern,
        ),
    decreases b.len(),
{
    if b.len() == 0 {
        assert(a + b =~= a);
    } else {
        lemma_scan_all_joined(results, a, b.drop_last(), tree, pattern);
        assert((a + b).drop_last() =~= a + b.drop_last());
        assert((a + b).last() == b.last());
    }
}

/// The results of a walk are what scanning the files it lets through
/// gives, in the order in which they are found.
pub proof fn lemma_run_is_scan(m: FilterModel, pattern: Seq<char>, tree: TreeModel, f: Frontier, steps: nat)
    ensures
        run(m, pattern, tree, f, steps).results == scan_all(
            f.results,
            found_files(m, pattern, tree, f, steps),
            tree,
            pattern,
        ),
    decreases steps,
{
    if steps > 0 && f.pending.len() > 0 {
        let next = advance(m, pattern, tree, f);
        let rest = found_files(m, pattern, tree, next, (steps - 1) as nat);
        let here = files_here(m, tree, f);
        lemma_run_is_scan(m, pattern, tree, next, (steps - 1) as nat);
        lemma_scan_all_joined(f.results, here, rest, tree, pattern);
    }
}

/// The results of a search are those of the files that take part, each
/// scanned once, in the order in which they are found; a file without a
/// match, or one that cannot be read, leaves no result.
pub proof fn lemma_results_are_scans(
    m: FilterModel,
    pattern: Seq<char>,
    tree: TreeModel,
    root_real_path: Seq<char>,
)
    ensures
        snapshot_results(m, pattern, tree, root_real_path) == scan_all(
            Seq::empty(),
            eligible_files(m, tree, root_real_path),
            tree,
            pattern,
        ),
{
    let f = start(root_real_path);
    lemma_found_files_by_walk_alone(m, pattern, Seq::empty(), tree, f, f, enough_steps(tree));
    lemma_run_is_scan(m, pattern, tree, f, enough_steps(tree));
}

/// The files that a listing brought are new: none of them was seen
/// before, and no two of them are the same file.
proof fn lemma_brought_files_are_new(
    m: FilterModel,
    dir: DirModel,
    entries: Seq<EntryModel>,
    seen: Set<Seq<char>>,
    files: Seq<Candidate>,
)
    requires
        dir_ok(m, dir),
        candidate_models(files) == sift(m, dir, entries, seen).files,
    ensures
        forall|j: int| 0 <= j < files.len() ==> !seen.contains((#[trigger] files[j]).real_path@),
        forall|i: int, j: int|
            0 <= i < j < files.len() ==> (#[trigger] files[i]).real_path@ != (#[trigger] files[j]).real_path@,
{
    let s = sift(m, dir, entries, seen);
    lemma_sift_laws(m, dir, entries, seen);
    assert forall|j: int| 0 <= j < files.len() implies !seen.contains((#[trigger] files[j]).real_path@) by {
        assert(s.files[j] == files[j]@);
    }
    assert forall|i: int, j: int| 0 <= i < j < files.len() implies (#[trigger] files[i]).real_path@ != (
    #[trigger] files[j]).real_path@ by {
        assert(s.files[i] == files[i]@);
        assert(s.files[j] == files[j]@);
    }
}

/// Where no job was out, and the one job that was then handed out is back,
/// by its listing and its files or by being given up, no job is out again.
proof fn lemma_no_job_out(w: WalkModel, id: int, after: WalkModel)
    requires
        w.pending.len() > 0,
        w.scanning.len() == w.active.len(),
        forall|i: int| 0 <= i < w.active.len() ==> (#[trigger] w.active[i]) is None,
        forall|i: int| 0 <= i < w.scanning.len() ==> !#[trigger] w.scanning[i],
        0 <= id <= w.active.len(),
        after.active == after_handing_out(w, id).active.update(id, None),
        after.scanning == after_handing_out(w, id).scanning || after.scanning == after_handing_out(
            w,
            id,
        ).scanning.update(id, true).update(id, false),
    ensures
        forall|i: int| 0 <= i < after.active.len() ==> (#[trigger] after.active[i]) is None,
        forall|i: int| 0 <= i < after.scanning.len() ==> !#[trigger] after.scanning[i],
{
    let out = after_handing_out(w, id);
    assert forall|i: int| 0 <= i < after.active.len() implies (#[trigger] after.active[i]) is None by {
        if i != id {
            assert(out.active[i] == w.active[i]);
        }
    }
    assert forall|i: int| 0 <= i < after.scanning.len() implies !#[trigger] after.scanning[i] by {
        if i != id && i < w.scanning.len() {
            assert(out.scanning[i] == w.scanning[i]);
        }
    }
}

/// The results that the files `files` give when they are scanned, in
/// order; a file that cannot be read gives none.
pub open spec fn scans_of(files: Seq<CandidateModel>, tree: TreeModel, pattern: Seq<char>) -> Seq<
    ResultModel,
>
    decreases files.len(),
{
    if files.len() == 0 {
        Seq::empty()
    } else if record_at(tree.files, files.last().real_path) is Some {
        scans_of(files.drop_last(), tree, pattern).push(result_of(files.last(), tree, pattern))
    } else {
        scans_of(files.drop_last(), tree, pattern)
    }
}

/// Scanning files and offering their results is offering the results that
/// the files give.
pub proof fn lemma_scan_all_offers(
    results: Seq<ResultModel>,
    files: Seq<CandidateModel>,
    tree: TreeModel,
    pattern: Seq<char>,
)
    ensures
        scan_all(results, files, tree, pattern) == crate::results::offer_all(
            results,
            scans_of(files, tree, pattern),
        ),
    decreases files.len(),
{
    if files.len() > 0 {
        let init = files.drop_last();
        lemma_scan_all_offers(results, init, tree, pattern);
        if record_at(tree.files, files.last().real_path) is Some {
            let offered = scans_of(files, tree, pattern);
            assert(offered.drop_last() =~= scans_of(init, tree, pattern));
            assert(offered.last() == result_of(files.last(), tree, pattern));
        }
    }
}

/// Every result that files give is the result of one of them, and files
/// with different real paths give results for different paths.
pub proof fn lemma_scans_of_distinct(files: Seq<CandidateModel>, tree: TreeModel, pattern: Seq<char>)
    requires
        forall|i: int, j: int|
            0 <= i < j < files.len() ==> (#[trigger] files[i]).real_path != (#[trigger] files[j]).real_path,
    ensures
        forall|k: int|
            0 <= k < scans_of(files, tree, pattern).len() ==> exists|i: int|
                0 <= i < files.len() && (#[trigger] files[i]).real_path == (#[trigger] scans_of(
                    files,
                    tree,
                    pattern,
                )[k]).file_path,
        forall|i: int, j: int|
            0 <= i < j < scans_of(files, tree, pattern).len() ==> (#[trigger] scans_of(
                files,
                tree,
                pattern,
            )[i]).file_path != (#[trigger] scans_of(files, tree, pattern)[j]).file_path,
    decreases files.len(),
{
    let out = scans_of(files, tree, pattern);
    if files.len() > 0 {
        let init = files.drop_last();
        let before = scans_of(init, tree, pattern);
        assert forall|i: int, j: int| 0 <= i < j < init.len() implies (#[trigger] init[i]).real_path != (
        #[trigger] init[j]).real_path by {
            assert(init[i] == files[i] && init[j] == files[j]);
        }
        lemma_scans_of_distinct(init, tree, pattern);
        assert forall|k: int| 0 <= k < out.len() implies exists|i: int|
            0 <= i < files.len() && (#[trigger] files[i]).real_path == (#[trigger] out[k]).file_path by {
            if k < before.len() {
                assert(out[k] == before[k]);
                let i = choose|i: int|
                    0 <= i < init.len() && (#[trigger] init[i]).real_path == (#[trigger] before[k]).file_path;
                assert(files[i] == init[i]);
            } else {
                assert(files[files.len() - 1].real_path == out[k].file_path);
            }
        }
        assert forall|i: int, j: int| 0 <= i < j < out.len() implies (#[trigger] out[i]).file_path != (
        #[trigger] out[j]).file_path by {
            if j < before.len() {
                assert(out[i] == before[i] && out[j] == before[j]);
            } else {
                assert(out[i] == before[i]);
                let a = choose|a: int|
                    0 <= a < init.len() && (#[trigger] init[a]).real_path == (#[trigger] before[i]).file_path;
                assert(init[a] == files[a]);
                assert(files[a].real_path != files[files.len() - 1].real_path);
            }
        }
    }
}

/// The order in which the files are scanned does not show in the set of
/// results. Whoever scans the files that take part in a search and offers
/// their results, in whatever order, ends with the set of results that the
/// search gives; so two searches over the same tree give the same set.
pub proof fn lemma_results_whatever_the_order(
    m: FilterModel,
    pattern: Seq<char>,
    tree: TreeModel,
    root_real_path: Seq<char>,
    offered: Seq<ResultModel>,
)
    requires
        forall|i: int, j: int|
            0 <= i < j < offered.len() ==> (#[trigger] offered[i]).file_path != (#[trigger] offered[j]).file_path,
        offered.to_set() == scans_of(eligible_files(m, tree, root_real_path), tree, pattern).to_set(),
    ensures
        crate::results::offer_all(Seq::empty(), offered).to_set() == snapshot_results(
            m,
            pattern,
            tree,
            root_real_path,
        ).to_set(),
{
    let files = eligible_files(m, tree, root_real_path);
    lemma_eligible_files_laws(m, tree, root_real_path);
    lemma_scans_of_distinct(files, tree, pattern);
    lemma_results_are_scans(m, pattern, tree, root_real_path);
    lemma_scan_all_offers(Seq::empty(), files, tree, pattern);
    crate::results::lemma_order_does_not_show(offered, scans_of(files, tree, pattern));
}

/// The listing of the first record of a directory at `path`, if there is
/// one.
fn find_dir<'a>(tree: &'a TreeSnapshot, path: &String) -> (r: Option<&'a DirListing>)
    ensures
        match r {
            Some(l) => record_at(tree@.dirs, path@) == Some(l@),
            None => record_at(tree@.dirs, path@) is None,
        },
{
    let ghost all = tree@.dirs;
    let mut i: usize = 0;
    proof {
        assert(all.skip(0) =~= all);
    }
    while i < tree.dirs.len()
        invariant
            i <= tree.dirs@.len(),
            all == tree@.dirs,
            record_at(all, path@) == record_at(all.skip(i as int), path@),
        decreases tree.dirs@.len() - i,
    {
        proof {
            assert(all.skip(i as int)[0] == all[i as int]);
            assert(all.skip(i as int).skip(1) =~= all.skip(i + 1));
        }
        if tree.dirs[i].real_path == *path {
            return Some(&tree.dirs[i].listing);
        }
        i = i + 1;
    }
    None
}

/// The content of the first record of a file at `path`, if there is one.
fn find_file<'a>(tree: &'a TreeSnapshot, path: &String) -> (r: Option<&'a Vec<u8>>)
    ensures
        match r {
            Some(c) => record_at(tree@.files, path@) == Some(c@),
            None => record_at(tree@.files, path@) is None,
        },
{
    let ghost all = tree@.files;
    let mut i: usize = 0;
    proof {
        assert(all.skip(0) =~= all);
    }
    while i < tree.files.len()
        invariant
            i <= tree.files@.len(),
            all == tree@.files,
            record_at(all, path@) == record_at(all.skip(i as int), path@),
        decreases tree.files@.len() - i,
    {
        proof {
            assert(all.skip(i as int)[0] == all[i as int]);
            assert(all.skip(i as int).skip(1) =~= all.skip(i + 1));
        }
        if tree.files[i].real_path == *path {
            return Some(&tree.files[i].content);
        }
        i = i + 1;
    }
    None
}

/// Scans the files that one listing brought and offers their results.
fn scan_files(
    search: &mut ContentSearch,
    files: &Vec<Candidate>,
    tree: &TreeSnapshot,
    Ghost(seen): Ghost<Set<Seq<char>>>,
)
    requires
        old(search).wf(),
        forall|k: int|
            0 <= k < old(search).results@.len() ==> seen.contains(
                (#[trigger] old(search).results@[k]).file_path,
            ),
        forall|j: int| 0 <= j < files@.len() ==> !seen.contains((#[trigger] files@[j]).real_path@),
        forall|i: int, j: int|
            0 <= i < j < files@.len() ==> (#[trigger] files@[i]).real_path@ != (
            #[trigger] files@[j]).real_path@,
    ensures
        final(search).wf(),
        final(search).walk == old(search).walk,
        final(search).pattern == old(search).pattern,
        final(search).results@ == scan_all(
            old(search).results@,
            candidate_models(files@),
            tree@,
            old(search).pattern.source(),
        ),
{
    let ghost before = search.results@;
    let ghost cands = candidate_models(files@);
    let ghost pat = search.pattern.source();
    let mut k: usize = 0;
    while k < files.len()
        invariant
            k <= files@.len(),
            search.wf(),
            search.walk == old(search).walk,
            search.pattern == old(search).pattern,
            pat == search.pattern.source(),
            cands == candidate_models(files@),
            search.results@ == scan_all(before, cands.take(k as int), tree@, pat),
            forall|i: int|
                0 <= i < search.results@.len() ==> seen.contains((#[trigger] search.results@[i]).file_path)
                    || exists|j: int|
                    0 <= j < k && (#[trigger] files@[j]).real_path@ == search.results@[i].file_path,
            forall|j: int| 0 <= j < files@.len() ==> !seen.contains((#[trigger] files@[j]).real_path@),
            forall|i: int, j: int|
                0 <= i < j < files@.len() ==> (#[trigger] files@[i]).real_path@ != (
                #[trigger] files@[j]).real_path@,
        decreases files@.len() - k,
    {
        let c = &files[k];
        let ghost held = search.results@;
        proof {
            assert(cands.take(k + 1).drop_last() =~= cands.take(k as int));
            assert(cands.take(k + 1).last() == c@);
            assert(!has_path(held, c.real_path@)) by {
                if has_path(held, c.real_path@) {
                    let i = choose|i: int| 0 <= i < held.len() && (#[trigger] held[i]).file_path == c.real_path@;
                    if !seen.contains(held[i].file_path) {
                        let j = choose|j: int| 0 <= j < k && (#[trigger] files@[j]).real_path@ == held[i].file_path;
                        assert(files@[j].real_path@ != files@[k as int].real_path@);
                    }
                }
            }
        }
        match find_file(tree, &c.real_path) {
            Some(bytes) => {
                let result = search.scan(c, bytes.as_slice());
                let _ = search.results.accept(result);
                proof {
                    assert forall|i: int| 0 <= i < search.results@.len() implies seen.contains(
                        (#[trigger] search.results@[i]).file_path,
                    ) || exists|j: int|
                        0 <= j < k + 1 && (#[trigger] files@[j]).real_path@ == search.results@[i].file_path by {
                        if i < held.len() {
                            assert(search.results@[i] == held[i]);
                            if !seen.contains(held[i].file_path) {
                                let j = choose|j: int|
                                    0 <= j < k && (#[trigger] files@[j]).real_path@ == held[i].file_path;
                                assert(files@[j].real_path@ == search.results@[i].file_path);
                            }
                        } else {
                            assert(files@[k as int].real_path@ == search.results@[i].file_path);
                        }
                    }
                }
            },
            None => {
                proof {
                    assert forall|i: int| 0 <= i < search.results@.len() implies seen.contains(
                        (#[trigger] search.results@[i]).file_path,
                    ) || exists|j: int|
                        0 <= j < k + 1 && (#[trigger] files@[j]).real_path@ == search.results@[i].file_path by {
                        if !seen.contains(held[i].file_path) {
                            let j = choose|j: int|
                                0 <= j < k && (#[trigger] files@[j]).real_path@ == held[i].file_path;
                            assert(files@[j].real_path@ == search.results@[i].file_path);
                        }
                    }
                }
            },
        }
        k = k + 1;
    }
    proof {
        assert(cands.take(k as int) =~= cands);
    }
}

impl SearchEngine {
    /// Searches the content of a tree held in memory, from the directory at
    /// `root_real_path` down, and gives the results in the order in which
    /// their files were found.
    ///
    /// Fails with `InvalidPattern` if the pattern or a glob does not
    /// compile, else with `PathNotFound` if the tree has no directory at
    /// the root path.
    pub fn search_snapshot(
        &self,
        tree: &TreeSnapshot,
        root_real_path: String,
        pattern: String,
        options: Option<SearchOptions>,
    ) -> (r: Result<Vec<SearchResult>, SearchError>)
        ensures
            match r {
                Ok(found) => {
                    &&& content_request_error(
                        status_at(tree@, root_real_path@),
                        pattern@,
                        options_or_default(options),
                    ) is None
                    &&& result_models(found@) == snapshot_results(
                        filter_model(options_or_default(options)),
                        effective_pattern(pattern@, folds_case(options_or_default(options))),
                        tree@,
                        root_real_path@,
                    )
                    &&& results_ok(result_models(found@))
                },
                Err(e) => content_request_error(
                    status_at(tree@, root_real_path@),
                    pattern@,
                    options_or_default(options),
                ) == Some(e),
            },
    {
        let status = if find_dir(tree, &root_real_path).is_some() {
            RootStatus::Directory
        } else if find_file(tree, &root_real_path).is_some() {
            RootStatus::NotDirectory
        } else {
            RootStatus::Missing
        };
        let ghost m = filter_model(options_or_default(options));
        let ghost pat = effective_pattern(pattern@, folds_case(options_or_default(options)));
        let ghost t = tree@;
        let ghost first = start(root_real_path@);
        let mut search = match self.search_pattern(status, root_real_path, pattern, options) {
            Ok(s) => s,
            Err(e) => {
                return Err(e);
            },
        };
        let ghost mut steps: nat = enough_steps(t);
        proof {
            assert(first.seen =~= search.walk@.seen);
            lemma_enough_steps(t, root_real_path@);
            assert(search.walk@.pending =~= first.pending);
        }
        loop
            invariant
                search.wf(),
                t == tree@,
                search.walk@.filter == m,
                search.pattern.source() == pat,
                forall|i: int| 0 <= i < search.walk@.active.len() ==> (#[trigger] search.walk@.active[i]) is None,
                forall|i: int| 0 <= i < search.walk@.scanning.len() ==> !#[trigger] search.walk@.scanning[i],
                forall|k: int|
                    0 <= k < search.results@.len() ==> search.walk@.seen.contains(
                        (#[trigger] search.results@[k]).file_path,
                    ),
                run(m, pat, t, first, enough_steps(t)) == run(
                    m,
                    pat,
                    t,
                    Frontier {
                        pending: search.walk@.pending,
                        seen: search.walk@.seen,
                        results: search.results@,
                    },
                    steps,
                ),
                left_to_do(
                    t,
                    Frontier {
                        pending: search.walk@.pending,
                        seen: search.walk@.seen,
                        results: search.results@,
                    },
                ) <= steps,
            ensures
                search.wf(),
                quiescent(search.walk@),
                search.results@ == run(m, pat, t, first, enough_steps(t)).results,
            decreases steps,
        {
            let ghost w = search.walk@;
            let ghost cur = Frontier { pending: w.pending, seen: w.seen, results: search.results@ };
            proof {
                search.results.lemma_results_ok();
            }
            let job = match search.walk.next_directory() {
                Some(j) => j,
                None => {
                    break ;
                },
            };
            let ghost w1 = search.walk@;
            proof {
                search.walk.lemma_walk_ok();
                assert(steps > 0);
                lemma_advance_leaves_less(m, pat, t, cur);
                assert(w1.active[job.id as int] == Some(w.pending[0]));
            }
            match find_dir(tree, &job.real_path) {
                Some(listing) => {
                    let ghost d = scoped_dir(
                        m,
                        w.pending[0],
                        listing@.ignore_lines,
                        listing@.gitignore_lines,
                    );
                    let ghost s = sift(m, d, listing@.entries, w.seen);
                    proof {
                        search.walk.lemma_walk_ok();
                        lemma_sift_laws(m, d, listing@.entries, w.seen);
                    }
                    match search.walk.submit_listing(job.id, listing) {
                        Ok(files) => {
                            proof {
                                lemma_brought_files_are_new(m, d, listing@.entries, w.seen, files@);
                            }
                            scan_files(&mut search, &files, tree, Ghost(w.seen));
                            match search.walk.finish_job(job.id) {
                                Ok(()) => {},
                                Err(e) => {
                                    return Err(e);
                                },
                            }
                            proof {
                                let next = advance(m, pat, t, cur);
                                assert(search.walk@.pending =~= next.pending);
                                assert(search.results@ == next.results);
                                lemma_scan_all_ok(cur.results, s.files, t, pat);
                                assert forall|k: int| 0 <= k < search.results@.len() implies search.walk@.seen.contains(
                                    (#[trigger] search.results@[k]).file_path,
                                ) by {
                                    let p = search.results@[k].file_path;
                                    if has_path(cur.results, p) {
                                        let i = choose|i: int|
                                            0 <= i < cur.results.len() && (#[trigger] cur.results[i]).file_path == p;
                                        assert(w.seen.contains(p));
                                    } else {
                                        let j = choose|j: int|
                                            0 <= j < s.files.len() && (#[trigger] s.files[j]).real_path == p;
                                        assert(s.seen.contains(s.files[j].real_path));
                                    }
                                }
                            }
                        },
                        Err(e) => {
                            return Err(e);
                        },
                    }
                },
                None => {
                    match search.walk.skip_directory(job.id) {
                        Ok(()) => {
                            proof {
                                let next = advance(m, pat, t, cur);
                                assert(search.walk@.pending =~= next.pending);
                            }
                        },
                        Err(e) => {
                            return Err(e);
                        },
                    }
                },
            }
            proof {
                lemma_no_job_out(w, job.id as int, search.walk@);
                steps = (steps - 1) as nat;
            }
        }
        search.finish()
    }
}

/// The real paths of those of `files` whose name the pattern matches, in
/// order.
pub open spec fn name_hits(files: Seq<CandidateModel>, pattern: Seq<char>) -> Seq<Seq<char>>
    decreases files.len(),
{
    if files.len() == 0 {
        Seq::empty()
    } else if text_is_match(pattern, files.last().name) {
        name_hits(files.drop_last(), pattern).push(files.last().real_path)
    } else {
        name_hits(files.drop_last(), pattern)
    }
}

/// The result of a file name search over the tree: of the files that take
/// part, those whose name the pattern matches.
pub open spec fn snapshot_names(pattern: Seq<char>, tree: TreeModel, root_real_path: Seq<char>) -> Seq<
    Seq<char>,
> {
    name_hits(eligible_files(name_search_model(), tree, root_real_path), pattern)
}

/// The hits of two runs of files, one after the other.
pub proof fn lemma_name_hits_joined(a: Seq<CandidateModel>, b: Seq<CandidateModel>, pattern: Seq<char>)
    ensures
        name_hits(a + b, pattern) == name_hits(a, pattern) + name_hits(b, pattern),
    decreases b.len(),
{
    if b.len() == 0 {
        assert(a + b =~= a);
        assert(name_hits(a, pattern) + name_hits(b, pattern) =~= name_hits(a, pattern));
    } else {
        lemma_name_hits_joined(a, b.drop_last(), pattern);
        assert((a + b).drop_last() =~= a + b.drop_last());
        assert((a + b).last() == b.last());
        if text_is_match(pattern, b.last().name) {
            assert(name_hits(a, pattern) + name_hits(b, pattern) =~= (name_hits(a, pattern) + name_hits(
                b.drop_last(),
                pattern,
            )).push(b.last().real_path));
        }
    }
}

/// Whether `path` is the real path of one of `files` whose name the
/// pattern matches.
pub open spec fn is_hit(files: Seq<CandidateModel>, pattern: Seq<char>, path: Seq<char>) -> bool {
    exists|i: int|
        0 <= i < files.len() && (#[trigger] files[i]).real_path == path && text_is_match(
            pattern,
            files[i].name,
        )
}

/// Every hit is the real path of one of the files, and the pattern
/// matches that file's name.
pub proof fn lemma_name_hits_are_files(files: Seq<CandidateModel>, pattern: Seq<char>)
    ensures
        forall|k: int|
            0 <= k < name_hits(files, pattern).len() ==> is_hit(
                files,
                pattern,
                #[trigger] name_hits(files, pattern)[k],
            ),
    decreases files.len(),
{
    if files.len() > 0 {
        let init = files.drop_last();
        lemma_name_hits_are_files(init, pattern);
        assert forall|k: int| 0 <= k < name_hits(files, pattern).len() implies is_hit(
            files,
            pattern,
            #[trigger] name_hits(files, pattern)[k],
        ) by {
            if k < name_hits(init, pattern).len() {
                assert(name_hits(files, pattern)[k] == name_hits(init, pattern)[k]);
                assert(is_hit(init, pattern, name_hits(init, pattern)[k]));
                let i = choose|i: int|
                    0 <= i < init.len() && (#[trigger] init[i]).real_path == name_hits(init, pattern)[k]
                        && text_is_match(pattern, init[i].name);
                assert(files[i] == init[i]);
            } else {
                assert(files[files.len() - 1].real_path == name_hits(files, pattern)[k]);
            }
        }
    }
}

/// Files with different real paths give different hits.
pub proof fn lemma_name_hits_distinct(files: Seq<CandidateModel>, pattern: Seq<char>)
    requires
        forall|i: int, j: int|
            0 <= i < j < files.len() ==> (#[trigger] files[i]).real_path != (#[trigger] files[j]).real_path,
    ensures
        crate::results::paths_distinct(name_hits(files, pattern)),
    decreases files.len(),
{
    if files.len() > 0 {
        let init = files.drop_last();
        let before = name_hits(init, pattern);
        let out = name_hits(files, pattern);
        assert forall|i: int, j: int| 0 <= i < j < init.len() implies (#[trigger] init[i]).real_path != (
        #[trigger] init[j]).real_path by {
            assert(init[i] == files[i] && init[j] == files[j]);
        }
        lemma_name_hits_distinct(init, pattern);
        lemma_name_hits_are_files(init, pattern);
        assert forall|i: int, j: int| 0 <= i < j < out.len() implies #[trigger] out[i] != #[trigger] out[j] by {
            if j < before.len() {
                assert(out[i] == before[i] && out[j] == before[j]);
            } else {
                assert(out[i] == before[i]);
                assert(is_hit(init, pattern, before[i]));
                let k = choose|k: int|
                    0 <= k < init.len() && (#[trigger] init[k]).real_path == before[i] && text_is_match(
                        pattern,
                        init[k].name,
                    );
                assert(init[k] == files[k]);
                assert(files[k].real_path != files[files.len() - 1].real_path);
            }
        }
    }
}

/// The result of a file name search: every path in it is the canonical
/// path of a file that takes part and whose name the pattern matches, no
/// path comes twice, and, as hidden entries are shut out, no name on the
/// way to such a file is a hidden one.
pub proof fn lemma_snapshot_names_laws(pattern: Seq<char>, tree: TreeModel, root_real_path: Seq<char>)
    ensures
        crate::results::paths_distinct(snapshot_names(pattern, tree, root_real_path)),
        forall|k: int|
            0 <= k < snapshot_names(pattern, tree, root_real_path).len() ==> is_hit(
                eligible_files(name_search_model(), tree, root_real_path),
                pattern,
                #[trigger] snapshot_names(pattern, tree, root_real_path)[k],
            ),
        forall|i: int|
            0 <= i < eligible_files(name_search_model(), tree, root_real_path).len()
                ==> crate::walk::no_hidden(
                (#[trigger] eligible_files(name_search_model(), tree, root_real_path)[i]).trail,
            ),
{
    let files = eligible_files(name_search_model(), tree, root_real_path);
    lemma_eligible_files_laws(name_search_model(), tree, root_real_path);
    lemma_name_hits_distinct(files, pattern);
    lemma_name_hits_are_files(files, pattern);
    assert forall|i: int| 0 <= i < files.len() implies crate::walk::no_hidden((#[trigger] files[i]).trail) by {
        assert(candidate_ok(name_search_model(), files[i]));
    }
}

/// Considers the files that one listing brought.
fn consider_files(search: &mut FileSearch, files: &Vec<Candidate>, Ghost(seen): Ghost<Set<Seq<char>>>)
    requires
        old(search).wf(),
        forall|k: int| 0 <= k < old(search).files@.len() ==> seen.contains(#[trigger] old(search).files@[k]),
        forall|j: int| 0 <= j < files@.len() ==> !seen.contains((#[trigger] files@[j]).real_path@),
        forall|i: int, j: int|
            0 <= i < j < files@.len() ==> (#[trigger] files@[i]).real_path@ != (
            #[trigger] files@[j]).real_path@,
    ensures
        final(search).wf(),
        final(search).walk == old(search).walk,
        final(search).pattern == old(search).pattern,
        final(search).files@ == old(search).files@ + name_hits(
            candidate_models(files@),
            old(search).pattern.source(),
        ),
{
    let ghost before = search.files@;
    let ghost cands = candidate_models(files@);
    let ghost pat = search.pattern.source();
    let mut k: usize = 0;
    proof {
        assert(before + name_hits(cands.take(0), pat) =~= before);
    }
    while k < files.len()
        invariant
            k <= files@.len(),
            search.wf(),
            search.walk == old(search).walk,
            search.pattern == old(search).pattern,
            pat == search.pattern.source(),
            cands == candidate_models(files@),
            search.files@ == before + name_hits(cands.take(k as int), pat),
            forall|i: int|
                0 <= i < search.files@.len() ==> seen.contains(#[trigger] search.files@[i]) || exists|j: int|
                    0 <= j < k && (#[trigger] files@[j]).real_path@ == search.files@[i],
            forall|j: int| 0 <= j < files@.len() ==> !seen.contains((#[trigger] files@[j]).real_path@),
            forall|i: int, j: int|
                0 <= i < j < files@.len() ==> (#[trigger] files@[i]).real_path@ != (
                #[trigger] files@[j]).real_path@,
        decreases files@.len() - k,
    {
        let c = &files[k];
        let ghost held = search.files@;
        proof {
            assert(cands.take(k + 1).drop_last() =~= cands.take(k as int));
            assert(cands.take(k + 1).last() == c@);
            assert(!held.contains(c.real_path@)) by {
                if held.contains(c.real_path@) {
                    let i = choose|i: int| 0 <= i < held.len() && held[i] == c.real_path@;
                    if !seen.contains(held[i]) {
                        let j = choose|j: int| 0 <= j < k && (#[trigger] files@[j]).real_path@ == held[i];
                        assert(files@[j].real_path@ != files@[k as int].real_path@);
                    }
                }
            }
        }
        let _ = search.consider(c);
        proof {
            assert(search.files@ =~= before + name_hits(cands.take(k + 1), pat));
            assert forall|i: int| 0 <= i < search.files@.len() implies seen.contains(
                #[trigger] search.files@[i],
            ) || exists|j: int| 0 <= j < k + 1 && (#[trigger] files@[j]).real_path@ == search.files@[i] by {
                if i < held.len() {
                    assert(search.files@[i] == held[i]);
                    if !seen.contains(held[i]) {
                        let j = choose|j: int| 0 <= j < k && (#[trigger] files@[j]).real_path@ == held[i];
                        assert(files@[j].real_path@ == search.files@[i]);
                    }
                } else {
                    assert(files@[k as int].real_path@ == search.files@[i]);
                }
            }
        }
        k = k + 1;
    }
    proof {
        assert(cands.take(k as int) =~= cands);
    }
}

impl SearchEngine {
    /// Searches a tree held in memory, from the directory at
    /// `root_real_path` down, for files whose name matches `file_pattern`,
    /// and gives their canonical paths in the order in which they were
    /// found.
    ///
    /// Fails with `InvalidPattern` if the pattern does not compile, else
    /// with `PathNotFound` if the tree has no directory at the root path.
    pub fn search_files_snapshot(
        &self,
        tree: &TreeSnapshot,
        root_real_path: String,
        file_pattern: String,
    ) -> (r: Result<Vec<String>, SearchError>)
        ensures
            match r {
                Ok(found) => {
                    &&& name_request_error(status_at(tree@, root_real_path@), file_pattern@) is None
                    &&& crate::rules::texts(found@) == snapshot_names(
                        file_pattern@,
                        tree@,
                        root_real_path@,
                    )
                    &&& crate::results::paths_distinct(crate::rules::texts(found@))
                },
                Err(e) => name_request_error(status_at(tree@, root_real_path@), file_pattern@) == Some(e),
            },
    {
        let status = if find_dir(tree, &root_real_path).is_some() {
            RootStatus::Directory
        } else if find_file(tree, &root_real_path).is_some() {
            RootStatus::NotDirectory
        } else {
            RootStatus::Missing
        };
        let ghost m = name_search_model();
        let ghost pat = file_pattern@;
        let ghost none = Seq::<char>::empty();
        let ghost t = tree@;
        let ghost root = root_real_path@;
        let ghost first = start(root);
        let mut search = match self.search_files(status, root_real_path, file_pattern) {
            Ok(s) => s,
            Err(e) => {
                return Err(e);
            },
        };
        let ghost mut steps: nat = enough_steps(t);
        let ghost mut done: Seq<CandidateModel> = Seq::empty();
        proof {
            assert(first.seen =~= search.walk@.seen);
            lemma_enough_steps(t, root);
            assert(search.walk@.pending =~= first.pending);
            assert(done + found_files(m, none, t, first, steps) =~= found_files(m, none, t, first, steps));
            assert(search.files@ =~= name_hits(done, pat));
        }
        loop
            invariant
                search.wf(),
                t == tree@,
                search.walk@.filter == m,
                search.pattern.source() == pat,
                forall|i: int| 0 <= i < search.walk@.active.len() ==> (#[trigger] search.walk@.active[i]) is None,
                forall|i: int| 0 <= i < search.walk@.scanning.len() ==> !#[trigger] search.walk@.scanning[i],
                forall|k: int| 0 <= k < search.files@.len() ==> search.walk@.seen.contains(#[trigger] search.files@[k]),
                search.files@ == name_hits(done, pat),
                eligible_files(m, t, root) == done + found_files(
                    m,
                    none,
                    t,
                    Frontier {
                        pending: search.walk@.pending,
                        seen: search.walk@.seen,
                        results: Seq::empty(),
                    },
                    steps,
                ),
                left_to_do(
                    t,
                    Frontier {
                        pending: search.walk@.pending,
                        seen: search.walk@.seen,
                        results: Seq::empty(),
                    },
                ) <= steps,
            ensures
                search.wf(),
                quiescent(search.walk@),
                search.files@ == name_hits(eligible_files(m, t, root), pat),
            decreases steps,
        {
            let ghost w = search.walk@;
            let ghost cur = Frontier { pending: w.pending, seen: w.seen, results: Seq::empty() };
            let job = match search.walk.next_directory() {
                Some(j) => j,
                None => {
                    proof {
                        assert(done + found_files(m, none, t, cur, steps) =~= done);
                    }
                    break ;
                },
            };
            let ghost w1 = search.walk@;
            let ghost next = advance(m, none, t, cur);
            let ghost rest = found_files(m, none, t, next, (steps - 1) as nat);
            proof {
                search.walk.lemma_walk_ok();
                assert(steps > 0);
                lemma_advance_leaves_less(m, none, t, cur);
                assert(w1.active[job.id as int] == Some(w.pending[0]));
                lemma_found_files_by_walk_alone(
                    m,
                    none,
                    none,
                    t,
                    next,
                    Frontier { pending: next.pending, seen: next.seen, results: Seq::empty() },
                    (steps - 1) as nat,
                );
            }
            match find_dir(tree, &job.real_path) {
                Some(listing) => {
                    let ghost d = scoped_dir(
                        m,
                        w.pending[0],
                        listing@.ignore_lines,
                        listing@.gitignore_lines,
                    );
                    let ghost s = sift(m, d, listing@.entries, w.seen);
                    proof {
                        search.walk.lemma_walk_ok();
                        lemma_sift_laws(m, d, listing@.entries, w.seen);
                    }
                    match search.walk.submit_listing(job.id, listing) {
                        Ok(files) => {
                            proof {
                                lemma_brought_files_are_new(m, d, listing@.entries, w.seen, files@);
                            }
                            let ghost held = search.files@;
                            consider_files(&mut search, &files, Ghost(w.seen));
                            match search.walk.finish_job(job.id) {
                                Ok(()) => {},
                                Err(e) => {
                                    return Err(e);
                                },
                            }
                            proof {
                                assert(search.walk@.pending =~= next.pending);
                                lemma_name_hits_joined(done, s.files, pat);
                                lemma_name_hits_are_files(s.files, pat);
                                assert forall|k: int| 0 <= k < search.files@.len() implies search.walk@.seen.contains(
                                    #[trigger] search.files@[k],
                                ) by {
                                    if k < held.len() {
                                        assert(search.files@[k] == held[k]);
                                    } else {
                                        let hits = name_hits(s.files, pat);
                                        assert(search.files@[k] == hits[k - held.len()]);
                                        assert(is_hit(s.files, pat, hits[k - held.len()]));
                                        let i = choose|i: int|
                                            0 <= i < s.files.len() && (#[trigger] s.files[i]).real_path
                                                == hits[k - held.len()] && text_is_match(
                                                pat,
                                                s.files[i].name,
                                            );
                                        assert(s.seen.contains(s.files[i].real_path));
                                    }
                                }
                                assert(found_files(m, none, t, cur, steps) == s.files + rest);
                                assert((done + s.files) + rest =~= done + (s.files + rest));
                                done = done + s.files;
                            }
                        },
                        Err(e) => {
                            return Err(e);
                        },
                    }
                },
                None => {
                    match search.walk.skip_directory(job.id) {
                        Ok(()) => {
                            proof {
                                assert(search.walk@.pending =~= next.pending);
                                assert(found_files(m, none, t, cur, steps) == Seq::<CandidateModel>::empty()
                                    + rest);
                                assert(Seq::<CandidateModel>::empty() + rest =~= rest);
                            }
                        },
                        Err(e) => {
                            return Err(e);
                        },
                    }
                },
            }
            proof {
                lemma_no_job_out(w, job.id as int, search.walk@);
                steps = (steps - 1) as nat;
            }
        }
        search.finish()
    }
}

} // verus!
