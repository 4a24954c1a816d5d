//! What a search reaches. In a tree in which every file and directory is
//! named by one entry only, links and other things not counted, a search
//! comes to every directory that lies
//! below a chain of directories that the filter admits and the depth limit
//! allows entering, however long the chain, and lets every file through
//! that the filter admits there.

use vstd::prelude::*;
use crate::filter::{name_search_model, FilterModel};
use crate::pattern::text_is_match;
use crate::results::{has_path, lemma_offer_keeps_all, ResultModel};
use crate::snapshot::{
    advance, eligible_files, enough_steps, files_here, found_files, frontier_ok, left_to_do,
    lemma_advance_leaves_less, lemma_advance_ok, lemma_enough_steps, lemma_results_are_scans, name_hits,
    record_at, result_of, scan_all, snapshot_names, snapshot_results, start, Frontier, TreeModel,
};
use crate::walk::{
    child_path, dir_ok, entry_admitted, lemma_sift_laws, may_descend, path_of, root_dir, scoped_dir, sift,
    CandidateModel, DirModel, EntryKind, EntryModel,
};

verus! {

/// Whether the entry at `place` in the directory at `dir` is a file or a
/// directory and names the one with the real path `path`. An entry of
/// another kind, such as a link, names nothing: it is never let through.
pub open spec fn names(tree: TreeModel, dir: Seq<char>, place: int, path: Seq<char>) -> bool {
    record_at(tree.dirs, dir) matches Some(l) && 0 <= place < l.entries.len() && l.entries[place].kind
        != EntryKind::Other && l.entries[place].real_path == path
}

/// Whether every file and directory of the tree is named by one entry only
/// that is itself a file or a directory, and the root by none. A tree whose
/// links are listed as entries of another kind, and so are not followed,
/// is such a tree.
pub open spec fn named_once(tree: TreeModel, root_real_path: Seq<char>) -> bool {
    &&& forall|d1: Seq<char>, a1: int, d2: Seq<char>, a2: int, p: Seq<char>|
        #[trigger] names(tree, d1, a1, p) && #[trigger] names(tree, d2, a2, p) ==> d1 == d2 && a1 == a2
    &&& forall|d: Seq<char>, a: int| !#[trigger] names(tree, d, a, root_real_path)
}

/// The directory that the entry `e` of the directory `dir` stands for.
pub open spec fn entered(dir: DirModel, e: EntryModel) -> DirModel {
    DirModel {
        rel_path: child_path(dir.rel_path, e.name),
        real_path: e.real_path,
        trail: dir.trail.push(e.name),
        ignore_chain: dir.ignore_chain,
        git_chain: dir.git_chain,
    }
}

/// The candidate that the entry `e` of the directory `dir` stands for.
pub open spec fn candidate(dir: DirModel, e: EntryModel) -> CandidateModel {
    CandidateModel {
        rel_path: child_path(dir.rel_path, e.name),
        name: e.name,
        real_path: e.real_path,
        trail: dir.trail.push(e.name),
    }
}

/// The directory that is reached from the root by taking, one after the
/// other, the entries at `places`: each must be a directory that the filter
/// admits, in a directory that can be listed and that the depth limit
/// allows going below. Nothing where the chain breaks.
pub open spec fn dir_below(
    m: FilterModel,
    tree: TreeModel,
    root_real_path: Seq<char>,
    places: Seq<int>,
) -> Option<DirModel>
    decreases places.len(),
{
    if places.len() == 0 {
        Some(root_dir(root_real_path))
    } else {
        match dir_below(m, tree, root_real_path, places.drop_last()) {
            Some(d) => match record_at(tree.dirs, d.real_path) {
                Some(l) => {
                    let a = places.last();
                    let here = scoped_dir(m, d, l.ignore_lines, l.gitignore_lines);
                    if 0 <= a < l.entries.len() && l.entries[a].kind == EntryKind::Directory
                        && entry_admitted(m, here, l.entries[a]) && may_descend(m, d.trail.len()) {
                        Some(entered(here, l.entries[a]))
                    } else {
                        None
                    }
                },
                None => None,
            },
            None => None,
        }
    }
}

/// The file at `place` in the directory reached by `places`, if the filter
/// admits it there.
pub open spec fn file_below(
    m: FilterModel,
    tree: TreeModel,
    root_real_path: Seq<char>,
    places: Seq<int>,
    place: int,
) -> Option<CandidateModel> {
    match dir_below(m, tree, root_real_path, places) {
        Some(d) => match record_at(tree.dirs, d.real_path) {
            Some(l) => {
                let here = scoped_dir(m, d, l.ignore_lines, l.gitignore_lines);
                if 0 <= place < l.entries.len() && l.entries[place].kind == EntryKind::File && entry_admitted(
                    m,
                    here,
                    l.entries[place],
                ) {
                    Some(candidate(here, l.entries[place]))
                } else {
                    None
                }
            },
            None => None,
        },
        None => None,
    }
}

/// The directories that a walk takes up in at most `steps` steps, in the
/// order in which it takes them up.
pub open spec fn found_dirs(
    m: FilterModel,
    pattern: Seq<char>,
    tree: TreeModel,
    f: Frontier,
    steps: nat,
) -> Seq<DirModel>
    decreases steps,
{
    if steps == 0 || f.pending.len() == 0 {
        Seq::empty()
    } else {
        seq![f.pending[0]] + found_dirs(m, pattern, tree, advance(m, pattern, tree, f), (steps - 1) as nat)
    }
}

/// The directories that a search over the tree takes up.
pub open spec fn entered_dirs(m: FilterModel, tree: TreeModel, root_real_path: Seq<char>) -> Seq<DirModel> {
    found_dirs(m, Seq::empty(), tree, start(root_real_path), enough_steps(tree))
}

/// Whatever sifting has seen was seen before or is named by an entry of
/// the listing.
pub proof fn lemma_sift_from_entries(
    m: FilterModel,
    dir: DirModel,
    entries: Seq<EntryModel>,
    seen: Set<Seq<char>>,
)
    ensures
        forall|p: Seq<char>|
            sift(m, dir, entries, seen).seen.contains(p) ==> seen.contains(p) || exists|a: int|
                0 <= a < entries.len() && (#[trigger] entries[a]).real_path == p && entries[a].kind
                    != EntryKind::Other,
    decreases entries.len(),
{
    if entries.len() > 0 {
        let init = entries.drop_last();
        let acc = sift(m, dir, init, seen);
        let s = sift(m, dir, entries, seen);
        lemma_sift_from_entries(m, dir, init, seen);
        assert forall|p: Seq<char>| s.seen.contains(p) implies seen.contains(p) || exists|a: int|
            0 <= a < entries.len() && (#[trigger] entries[a]).real_path == p && entries[a].kind
                != EntryKind::Other by {
            if acc.seen.contains(p) {
                if !seen.contains(p) {
                    let a = choose|a: int|
                        0 <= a < init.len() && (#[trigger] init[a]).real_path == p && init[a].kind
                            != EntryKind::Other;
                    assert(entries[a] == init[a]);
                }
            } else {
                assert(entries[entries.len() - 1].real_path == p);
                assert(entries[entries.len() - 1].kind != EntryKind::Other);
            }
        }
    }
}

/// Sifting lets an entry through that the filter admits, that was not seen
/// before and that no other entry of the listing shares its real path with.
pub proof fn lemma_sift_lets_in(
    m: FilterModel,
    dir: DirModel,
    entries: Seq<EntryModel>,
    seen: Set<Seq<char>>,
    a: int,
)
    requires
        0 <= a < entries.len(),
        entry_admitted(m, dir, entries[a]),
        !seen.contains(entries[a].real_path),
        forall|b: int|
            0 <= b < entries.len() && b != a && (#[trigger] entries[b]).kind != EntryKind::Other
                ==> entries[b].real_path != entries[a].real_path,
    ensures
        entries[a].kind == EntryKind::File ==> sift(m, dir, entries, seen).files.contains(
            candidate(dir, entries[a]),
        ),
        entries[a].kind == EntryKind::Directory && may_descend(m, dir.trail.len()) ==> sift(
            m,
            dir,
            entries,
            seen,
        ).dirs.contains(entered(dir, entries[a])),
    decreases entries.len(),
{
    let init = entries.drop_last();
    let acc = sift(m, dir, init, seen);
    let s = sift(m, dir, entries, seen);
    let e = entries[a];
    if a == entries.len() - 1 {
        lemma_sift_from_entries(m, dir, init, seen);
        if acc.seen.contains(e.real_path) {
            let b = choose|b: int|
                0 <= b < init.len() && (#[trigger] init[b]).real_path == e.real_path && init[b].kind
                    != EntryKind::Other;
            assert(entries[b] == init[b]);
        }
        if e.kind == EntryKind::File {
            assert(s.files[s.files.len() - 1] == candidate(dir, e));
        }
        if e.kind == EntryKind::Directory && may_descend(m, dir.trail.len()) {
            assert(s.dirs[s.dirs.len() - 1] == entered(dir, e));
        }
    } else {
        assert(init[a] == e);
        assert forall|b: int|
            0 <= b < init.len() && b != a && (#[trigger] init[b]).kind != EntryKind::Other implies init[b].real_path
            != init[a].real_path by {
            assert(init[b] == entries[b]);
        }
        lemma_sift_lets_in(m, dir, init, seen, a);
        if e.kind == EntryKind::File {
            let i = choose|i: int| 0 <= i < acc.files.len() && acc.files[i] == candidate(dir, e);
            assert(s.files[i] == candidate(dir, e));
        }
        if e.kind == EntryKind::Directory && may_descend(m, dir.trail.len()) {
            let i = choose|i: int| 0 <= i < acc.dirs.len() && acc.dirs[i] == entered(dir, e);
            assert(s.dirs[i] == entered(dir, e));
        }
    }
}

/// Whether `path` is the root's or is named by an entry of a directory of
/// `listed`.
pub open spec fn from_listed(
    tree: TreeModel,
    root_real_path: Seq<char>,
    listed: Set<Seq<char>>,
    path: Seq<char>,
) -> bool {
    path == root_real_path || exists|d: Seq<char>, a: int| listed.contains(d) && #[trigger] names(tree, d, a, path)
}

/// What holds of a walk at every step, with `listed` the real paths of the
/// directories taken up so far: the directories that wait are different
/// ones, each was seen and none was taken up; what was taken up was seen;
/// and whatever was seen is the root or is named in a directory taken up.
pub open spec fn walk_sound(
    tree: TreeModel,
    root_real_path: Seq<char>,
    f: Frontier,
    listed: Set<Seq<char>>,
) -> bool {
    &&& forall|i: int, j: int|
        0 <= i < j < f.pending.len() ==> (#[trigger] f.pending[i]).real_path != (#[trigger] f.pending[j]).real_path
    &&& forall|i: int|
        0 <= i < f.pending.len() ==> f.seen.contains((#[trigger] f.pending[i]).real_path) && !listed.contains(
            f.pending[i].real_path,
        )
    &&& forall|p: Seq<char>| listed.contains(p) ==> f.seen.contains(p)
    &&& forall|p: Seq<char>| f.seen.contains(p) ==> from_listed(tree, root_real_path, listed, p)
}

/// Taking up one more directory keeps a walk sound.
pub proof fn lemma_walk_sound_step(
    m: FilterModel,
    pattern: Seq<char>,
    tree: TreeModel,
    root_real_path: Seq<char>,
    f: Frontier,
    listed: Set<Seq<char>>,
)
    requires
        walk_sound(tree, root_real_path, f, listed),
        frontier_ok(m, f),
        f.pending.len() > 0,
    ensures
        walk_sound(
            tree,
            root_real_path,
            advance(m, pattern, tree, f),
            listed.insert(f.pending[0].real_path),
        ),
{
    let head = f.pending[0];
    let next = advance(m, pattern, tree, f);
    let more = listed.insert(head.real_path);
    assert forall|p: Seq<char>| f.seen.contains(p) implies from_listed(tree, root_real_path, more, p) by {
        assert(from_listed(tree, root_real_path, listed, p));
        if p != root_real_path {
            let (d, a) = choose|d: Seq<char>, a: int| listed.contains(d) && #[trigger] names(tree, d, a, p);
            assert(more.contains(d) && names(tree, d, a, p));
        }
    }
    match record_at(tree.dirs, head.real_path) {
        Some(l) => {
            let here = scoped_dir(m, head, l.ignore_lines, l.gitignore_lines);
            let s = sift(m, here, l.entries, f.seen);
            assert(dir_ok(m, here));
            lemma_sift_laws(m, here, l.entries, f.seen);
            lemma_sift_from_entries(m, here, l.entries, f.seen);
            let kept = f.pending.len() - 1;
            assert forall|i: int| 0 <= i < next.pending.len() implies next.seen.contains(
                (#[trigger] next.pending[i]).real_path,
            ) && !more.contains(next.pending[i].real_path) by {
                if i < kept {
                    assert(next.pending[i] == f.pending[i + 1]);
                    assert(f.pending[0].real_path != f.pending[i + 1].real_path);
                } else {
                    assert(next.pending[i] == s.dirs[i - kept]);
                }
            }
            assert forall|i: int, j: int| 0 <= i < j < next.pending.len() implies (
            #[trigger] next.pending[i]).real_path != (#[trigger] next.pending[j]).real_path by {
                if j < kept {
                    assert(next.pending[i] == f.pending[i + 1] && next.pending[j] == f.pending[j + 1]);
                } else if i < kept {
                    assert(next.pending[i] == f.pending[i + 1] && next.pending[j] == s.dirs[j - kept]);
                } else {
                    assert(next.pending[i] == s.dirs[i - kept] && next.pending[j] == s.dirs[j - kept]);
                }
            }
            assert forall|p: Seq<char>| next.seen.contains(p) implies from_listed(
                tree,
                root_real_path,
                more,
                p,
            ) by {
                if !f.seen.contains(p) {
                    let a = choose|a: int|
                        0 <= a < l.entries.len() && (#[trigger] l.entries[a]).real_path == p
                            && l.entries[a].kind != EntryKind::Other;
                    assert(more.contains(head.real_path) && names(tree, head.real_path, a, p));
                }
            }
        },
        None => {
            assert forall|i: int| 0 <= i < next.pending.len() implies next.seen.contains(
                (#[trigger] next.pending[i]).real_path,
            ) && !more.contains(next.pending[i].real_path) by {
                assert(next.pending[i] == f.pending[i + 1]);
                assert(f.pending[0].real_path != f.pending[i + 1].real_path);
            }
            assert forall|i: int, j: int| 0 <= i < j < next.pending.len() implies (
            #[trigger] next.pending[i]).real_path != (#[trigger] next.pending[j]).real_path by {
                assert(next.pending[i] == f.pending[i + 1] && next.pending[j] == f.pending[j + 1]);
            }
        },
    }
}

/// Every directory that waits is taken up, where the steps are enough.
pub proof fn lemma_waiting_is_taken_up(
    m: FilterModel,
    pattern: Seq<char>,
    tree: TreeModel,
    f: Frontier,
    steps: nat,
    i: int,
)
    requires
        left_to_do(tree, f) <= steps,
        0 <= i < f.pending.len(),
    ensures
        found_dirs(m, pattern, tree, f, steps).contains(f.pending[i]),
    decreases steps,
{
    let all = found_dirs(m, pattern, tree, f, steps);
    let next = advance(m, pattern, tree, f);
    let rest = found_dirs(m, pattern, tree, next, (steps - 1) as nat);
    lemma_advance_leaves_less(m, pattern, tree, f);
    if i == 0 {
        assert(all[0] == f.pending[0]);
    } else {
        assert(next.pending[i - 1] == f.pending[i]);
        lemma_waiting_is_taken_up(m, pattern, tree, next, (steps - 1) as nat, i - 1);
        let k = choose|k: int| 0 <= k < rest.len() && rest[k] == f.pending[i];
        assert(all[k + 1] == rest[k]);
    }
}

/// What is admitted in a directory that is taken up is let through. Of a
/// directory that the walk takes up, every file that the filter admits is
/// among the files let through, and every directory that the filter admits,
/// and that the depth limit allows entering, is taken up in its turn.
pub proof fn lemma_taken_up_is_sifted(
    m: FilterModel,
    pattern: Seq<char>,
    tree: TreeModel,
    root_real_path: Seq<char>,
    f: Frontier,
    listed: Set<Seq<char>>,
    steps: nat,
    k: int,
    a: int,
)
    requires
        named_once(tree, root_real_path),
        walk_sound(tree, root_real_path, f, listed),
        frontier_ok(m, f),
        left_to_do(tree, f) <= steps,
        0 <= k < found_dirs(m, pattern, tree, f, steps).len(),
        record_at(tree.dirs, found_dirs(m, pattern, tree, f, steps)[k].real_path) is Some,
        0 <= a < record_at(tree.dirs, found_dirs(m, pattern, tree, f, steps)[k].real_path)->0.entries.len(),
        ({
            let d = found_dirs(m, pattern, tree, f, steps)[k];
            let l = record_at(tree.dirs, d.real_path)->0;
            entry_admitted(m, scoped_dir(m, d, l.ignore_lines, l.gitignore_lines), l.entries[a])
        }),
    ensures
        ({
            let d = found_dirs(m, pattern, tree, f, steps)[k];
            let l = record_at(tree.dirs, d.real_path)->0;
            let here = scoped_dir(m, d, l.ignore_lines, l.gitignore_lines);
            let e = l.entries[a];
            &&& e.kind == EntryKind::File ==> found_files(m, pattern, tree, f, steps).contains(
                candidate(here, e),
            )
            &&& e.kind == EntryKind::Directory && may_descend(m, d.trail.len()) ==> found_dirs(
                m,
                pattern,
                tree,
                f,
                steps,
            ).contains(entered(here, e))
        }),
    decreases steps,
{
    let dirs = found_dirs(m, pattern, tree, f, steps);
    let files = found_files(m, pattern, tree, f, steps);
    let d = dirs[k];
    let l = record_at(tree.dirs, d.real_path)->0;
    let here = scoped_dir(m, d, l.ignore_lines, l.gitignore_lines);
    let e = l.entries[a];
    let next = advance(m, pattern, tree, f);
    let rest_dirs = found_dirs(m, pattern, tree, next, (steps - 1) as nat);
    let rest_files = found_files(m, pattern, tree, next, (steps - 1) as nat);
    lemma_advance_leaves_less(m, pattern, tree, f);
    assert(files == files_here(m, tree, f) + rest_files);
    if e.kind == EntryKind::Other {
    } else if k == 0 {
        assert(d == f.pending[0]);
        let s = sift(m, here, l.entries, f.seen);
        assert(names(tree, d.real_path, a, e.real_path));
        assert(!f.seen.contains(e.real_path)) by {
            if f.seen.contains(e.real_path) {
                assert(from_listed(tree, root_real_path, listed, e.real_path));
                let (d2, a2) = choose|d2: Seq<char>, a2: int|
                    listed.contains(d2) && #[trigger] names(tree, d2, a2, e.real_path);
                assert(d2 == d.real_path);
            }
        }
        assert forall|b: int|
            0 <= b < l.entries.len() && b != a && (#[trigger] l.entries[b]).kind != EntryKind::Other implies l.entries[b].real_path
            != l.entries[a].real_path by {
            assert(names(tree, d.real_path, b, l.entries[b].real_path));
        }
        lemma_sift_lets_in(m, here, l.entries, f.seen, a);
        if e.kind == EntryKind::File {
            let i = choose|i: int| 0 <= i < s.files.len() && s.files[i] == candidate(here, e);
            assert(files[i] == candidate(here, e));
        }
        if e.kind == EntryKind::Directory && may_descend(m, d.trail.len()) {
            let i = choose|i: int| 0 <= i < s.dirs.len() && s.dirs[i] == entered(here, e);
            assert(next.pending[f.pending.len() - 1 + i] == s.dirs[i]);
            lemma_waiting_is_taken_up(
                m,
                pattern,
                tree,
                next,
                (steps - 1) as nat,
                f.pending.len() - 1 + i,
            );
            let j = choose|j: int| 0 <= j < rest_dirs.len() && rest_dirs[j] == entered(here, e);
            assert(dirs[j + 1] == rest_dirs[j]);
        }
    } else {
        assert(dirs[k] == rest_dirs[k - 1]);
        lemma_walk_sound_step(m, pattern, tree, root_real_path, f, listed);
        lemma_advance_ok(m, pattern, tree, f);
        lemma_taken_up_is_sifted(
            m,
            pattern,
            tree,
            root_real_path,
            next,
            listed.insert(f.pending[0].real_path),
            (steps - 1) as nat,
            k - 1,
            a,
        );
        if e.kind == EntryKind::File {
            let i = choose|i: int| 0 <= i < rest_files.len() && rest_files[i] == candidate(here, e);
            assert(files[files_here(m, tree, f).len() + i] == rest_files[i]);
        }
        if e.kind == EntryKind::Directory && may_descend(m, d.trail.len()) {
            let j = choose|j: int| 0 <= j < rest_dirs.len() && rest_dirs[j] == entered(here, e);
            assert(dirs[j + 1] == rest_dirs[j]);
        }
    }
}

/// A search starts sound.
pub proof fn lemma_start_sound(m: FilterModel, tree: TreeModel, root_real_path: Seq<char>)
    ensures
        walk_sound(tree, root_real_path, start(root_real_path), Set::empty()),
        frontier_ok(m, start(root_real_path)),
        left_to_do(tree, start(root_real_path)) <= enough_steps(tree),
{
    let f = start(root_real_path);
    assert(dir_ok(m, f.pending[0])) by {
        assert(path_of(Seq::<Seq<char>>::empty()) =~= Seq::<char>::empty());
    }
    lemma_enough_steps(tree, root_real_path);
}

/// Every directory that a walk takes up obeys the filter's laws.
pub proof fn lemma_found_dirs_ok(m: FilterModel, pattern: Seq<char>, tree: TreeModel, f: Frontier, steps: nat)
    requires
        frontier_ok(m, f),
    ensures
        forall|k: int|
            0 <= k < found_dirs(m, pattern, tree, f, steps).len() ==> dir_ok(
                m,
                #[trigger] found_dirs(m, pattern, tree, f, steps)[k],
            ),
    decreases steps,
{
    if steps > 0 && f.pending.len() > 0 {
        let all = found_dirs(m, pattern, tree, f, steps);
        let next = advance(m, pattern, tree, f);
        let rest = found_dirs(m, pattern, tree, next, (steps - 1) as nat);
        lemma_advance_ok(m, pattern, tree, f);
        lemma_found_dirs_ok(m, pattern, tree, next, (steps - 1) as nat);
        assert forall|k: int| 0 <= k < all.len() implies dir_ok(m, #[trigger] all[k]) by {
            if k > 0 {
                assert(all[k] == rest[k - 1]);
            }
        }
    }
}

/// A search prunes before it descends. No directory that the search takes
/// up, to list it, has a hidden name on the way to it, unless hidden
/// entries take part, and none lies beyond the depth limit: what lies below
/// a hidden directory is never listed, and no file from there takes part.
pub proof fn lemma_hidden_directories_are_pruned(m: FilterModel, tree: TreeModel, root_real_path: Seq<char>)
    ensures
        forall|k: int|
            0 <= k < entered_dirs(m, tree, root_real_path).len() ==> dir_ok(
                m,
                #[trigger] entered_dirs(m, tree, root_real_path)[k],
            ),
        !m.include_hidden ==> forall|k: int|
            0 <= k < entered_dirs(m, tree, root_real_path).len() ==> crate::walk::no_hidden(
                (#[trigger] entered_dirs(m, tree, root_real_path)[k]).trail,
            ),
        !m.include_hidden ==> forall|i: int|
            0 <= i < eligible_files(m, tree, root_real_path).len() ==> crate::walk::no_hidden(
                (#[trigger] eligible_files(m, tree, root_real_path)[i]).trail,
            ),
{
    let dirs = entered_dirs(m, tree, root_real_path);
    let files = eligible_files(m, tree, root_real_path);
    lemma_start_sound(m, tree, root_real_path);
    lemma_found_dirs_ok(m, Seq::empty(), tree, start(root_real_path), enough_steps(tree));
    crate::snapshot::lemma_eligible_files_laws(m, tree, root_real_path);
    if !m.include_hidden {
        assert forall|k: int| 0 <= k < dirs.len() implies crate::walk::no_hidden((#[trigger] dirs[k]).trail) by {
            assert(dir_ok(m, dirs[k]));
        }
        assert forall|i: int| 0 <= i < files.len() implies crate::walk::no_hidden((#[trigger] files[i]).trail) by {
            assert(crate::walk::candidate_ok(m, files[i]));
        }
    }
}

/// A search reaches every depth. In a tree whose links are not followed, every
/// directory below a chain of directories that the filter admits and that the
/// depth limit allows entering is taken up, however long the chain. Where
/// there is no depth limit, the limit forbids nothing.
pub proof fn lemma_reaches_every_directory(
    m: FilterModel,
    tree: TreeModel,
    root_real_path: Seq<char>,
    places: Seq<int>,
)
    requires
        named_once(tree, root_real_path),
        dir_below(m, tree, root_real_path, places) is Some,
    ensures
        entered_dirs(m, tree, root_real_path).contains(dir_below(m, tree, root_real_path, places)->0),
    decreases places.len(),
{
    let f = start(root_real_path);
    let none = Seq::<char>::empty();
    let dirs = entered_dirs(m, tree, root_real_path);
    lemma_start_sound(m, tree, root_real_path);
    if places.len() == 0 {
        lemma_waiting_is_taken_up(m, none, tree, f, enough_steps(tree), 0);
    } else {
        let above = dir_below(m, tree, root_real_path, places.drop_last())->0;
        lemma_reaches_every_directory(m, tree, root_real_path, places.drop_last());
        let k = choose|k: int| 0 <= k < dirs.len() && dirs[k] == above;
        lemma_taken_up_is_sifted(
            m,
            none,
            tree,
            root_real_path,
            f,
            Set::empty(),
            enough_steps(tree),
            k,
            places.last(),
        );
    }
}

/// In a tree whose links are not followed, every file that the filter admits
/// in a directory that the search reaches takes part in the search.
pub proof fn lemma_reaches_every_file(
    m: FilterModel,
    tree: TreeModel,
    root_real_path: Seq<char>,
    places: Seq<int>,
    place: int,
)
    requires
        named_once(tree, root_real_path),
        file_below(m, tree, root_real_path, places, place) is Some,
    ensures
        eligible_files(m, tree, root_real_path).contains(
            file_below(m, tree, root_real_path, places, place)->0,
        ),
{
    let f = start(root_real_path);
    let none = Seq::<char>::empty();
    let dirs = entered_dirs(m, tree, root_real_path);
    let d = dir_below(m, tree, root_real_path, places)->0;
    lemma_start_sound(m, tree, root_real_path);
    lemma_reaches_every_directory(m, tree, root_real_path, places);
    let k = choose|k: int| 0 <= k < dirs.len() && dirs[k] == d;
    lemma_taken_up_is_sifted(m, none, tree, root_real_path, f, Set::empty(), enough_steps(tree), k, place);
}

/// Scanning gives a result for every file that can be read and holds a
/// match.
pub proof fn lemma_scan_all_finds(
    results: Seq<ResultModel>,
    files: Seq<CandidateModel>,
    tree: TreeModel,
    pattern: Seq<char>,
    i: int,
)
    requires
        0 <= i < files.len(),
        record_at(tree.files, files[i].real_path) is Some,
        result_of(files[i], tree, pattern).matches.len() > 0,
    ensures
        has_path(scan_all(results, files, tree, pattern), files[i].real_path),
    decreases files.len(),
{
    let init = files.drop_last();
    let before = scan_all(results, init, tree, pattern);
    let out = scan_all(results, files, tree, pattern);
    if i == files.len() - 1 {
        let r = result_of(files[i], tree, pattern);
        if has_path(before, r.file_path) {
            let k = choose|k: int| 0 <= k < before.len() && (#[trigger] before[k]).file_path == r.file_path;
            assert(out[k].file_path == r.file_path);
        } else {
            assert(out[out.len() - 1].file_path == r.file_path);
        }
    } else {
        assert(init[i] == files[i]);
        lemma_scan_all_finds(results, init, tree, pattern, i);
        let k = choose|k: int| 0 <= k < before.len() && (#[trigger] before[k]).file_path == files[i].real_path;
        match record_at(tree.files, files.last().real_path) {
            Some(bytes) => {
                lemma_offer_keeps_all(
                    before,
                    ResultModel {
                        file_path: files.last().real_path,
                        matches: crate::content::file_matches(pattern, bytes),
                    },
                );
            },
            None => {},
        }
        assert(out[k].file_path == files[i].real_path);
    }
}

/// A search finds matches at every depth. In a tree whose links are not
/// followed, a file that the filter admits below a chain of admitted
/// directories, that can be read and that holds a match has a result, however
/// long the chain.
pub proof fn lemma_finds_matches_at_every_depth(
    m: FilterModel,
    pattern: Seq<char>,
    tree: TreeModel,
    root_real_path: Seq<char>,
    places: Seq<int>,
    place: int,
)
    requires
        named_once(tree, root_real_path),
        file_below(m, tree, root_real_path, places, place) matches Some(c) && record_at(
            tree.files,
            c.real_path,
        ) is Some && result_of(c, tree, pattern).matches.len() > 0,
    ensures
        has_path(
            snapshot_results(m, pattern, tree, root_real_path),
            file_below(m, tree, root_real_path, places, place)->0.real_path,
        ),
{
    let files = eligible_files(m, tree, root_real_path);
    let c = file_below(m, tree, root_real_path, places, place)->0;
    lemma_reaches_every_file(m, tree, root_real_path, places, place);
    let i = choose|i: int| 0 <= i < files.len() && files[i] == c;
    lemma_results_are_scans(m, pattern, tree, root_real_path);
    lemma_scan_all_finds(Seq::empty(), files, tree, pattern, i);
}

/// Every file whose name the pattern matches is among the hits.
pub proof fn lemma_name_hits_has(files: Seq<CandidateModel>, pattern: Seq<char>, i: int)
    requires
        0 <= i < files.len(),
        text_is_match(pattern, files[i].name),
    ensures
        name_hits(files, pattern).contains(files[i].real_path),
    decreases files.len(),
{
    let init = files.drop_last();
    let before = name_hits(init, pattern);
    let out = name_hits(files, pattern);
    if i == files.len() - 1 {
        assert(out[out.len() - 1] == files[i].real_path);
    } else {
        assert(init[i] == files[i]);
        lemma_name_hits_has(init, pattern, i);
        let k = choose|k: int| 0 <= k < before.len() && before[k] == files[i].real_path;
        assert(out[k] == before[k]);
    }
}

/// A file name search finds names at every depth. In a tree whose links are
/// not followed, a file that the filter admits below a chain of admitted
/// directories, and whose name the pattern matches, is among the paths found,
/// however long the chain.
pub proof fn lemma_finds_names_at_every_depth(
    pattern: Seq<char>,
    tree: TreeModel,
    root_real_path: Seq<char>,
    places: Seq<int>,
    place: int,
)
    requires
        named_once(tree, root_real_path),
        file_below(name_search_model(), tree, root_real_path, places, place) matches Some(c)
            && text_is_match(pattern, c.name),
    ensures
        snapshot_names(pattern, tree, root_real_path).contains(
            file_below(name_search_model(), tree, root_real_path, places, place)->0.real_path,
        ),
{
    let m = name_search_model();
    let files = eligible_files(m, tree, root_real_path);
    let c = file_below(m, tree, root_real_path, places, place)->0;
    lemma_reaches_every_file(m, tree, root_real_path, places, place);
    let i = choose|i: int| 0 <= i < files.len() && files[i] == c;
    lemma_name_hits_has(files, pattern, i);
}

} // verus!
