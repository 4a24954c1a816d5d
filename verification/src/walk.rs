//! The traverser: the decisions of a walk over a directory tree.
//!
//! The walk itself is the caller's: it lists directories, on as many workers
//! as it likes, and hands each listing in. The traverser decides which
//! entries take part, which directories are entered next, and which files go
//! on to matching. It remembers the real path of everything it let through,
//! so that a file or directory reached a second time, by a link or a loop,
//! is passed over.

use vstd::prelude::*;
use vstd::hash_set::StringHashSet;
use vstd::string::StringExecFns;
use std::collections::VecDeque;
use crate::filter::{admits, is_hidden_name, FilterModel, PathFilter};
use crate::rules::{kept_lines, rules_buildable, rules_verdict, stored_root, texts, RuleSet, Verdict};

verus! {

/// What kind of thing a directory entry is.
#[derive(Clone, Copy, Debug, PartialEq, Eq, Structural)]
pub enum EntryKind {
    /// A regular file.
    File,
    /// A directory.
    Directory,
    /// Anything else: it is neither searched nor entered.
    Other,
}

/// One entry of a directory, as the caller found it.
#[derive(Clone, Debug)]
pub struct DirEntry {
    /// The entry's name: the last component of its path.
    pub name: String,
    pub kind: EntryKind,
    /// The entry's canonical path: two entries with the same real path are
    /// the same file or directory.
    pub real_path: String,
}

/// What a [`DirEntry`] says.
pub ghost struct EntryModel {
    pub name: Seq<char>,
    pub kind: EntryKind,
    pub real_path: Seq<char>,
}

impl View for DirEntry {
    type V = EntryModel;

    open spec fn view(&self) -> EntryModel {
        EntryModel { name: self.name@, kind: self.kind, real_path: self.real_path@ }
    }
}

/// The models of a sequence of entries, in order.
pub open spec fn entry_models(v: Seq<DirEntry>) -> Seq<EntryModel> {
    Seq::new(v.len(), |i: int| v[i]@)
}

/// The rules of one ignore file: the directory it lies in and its globs,
/// as the compiled set holds them.
pub ghost struct RulesModel {
    pub root: Seq<char>,
    pub lines: Seq<Seq<char>>,
}

/// What a chain of ignore files says of a path. The chain runs from the
/// file nearest to the path up to the root's; the first file with a rule
/// that applies decides.
pub open spec fn chain_verdict(levels: Seq<RulesModel>, path: Seq<char>, is_dir: bool) -> Verdict
    decreases levels.len(),
{
    if levels.len() == 0 {
        Verdict::Unmatched
    } else {
        let v = rules_verdict(levels[0].root, levels[0].lines, path, is_dir);
        if v != Verdict::Unmatched {
            v
        } else {
            chain_verdict(levels.skip(1), path, is_dir)
        }
    }
}

/// The chain of a directory's entries: the chain above it, with the
/// directory's own ignore file in front if there is one, it is to be read
/// and its valid lines build.
pub open spec fn extend_chain(
    chain: Seq<RulesModel>,
    enabled: bool,
    dir_path: Seq<char>,
    lines: Option<Seq<Seq<char>>>,
) -> Seq<RulesModel> {
    match lines {
        Some(ls) => {
            if enabled && rules_buildable(stored_root(dir_path), kept_lines(ls)) {
                seq![RulesModel { root: stored_root(dir_path), lines: kept_lines(ls) }] + chain
            } else {
                chain
            }
        },
        None => chain,
    }
}

/// The path of the entry `name` in the directory at `dir`; both are
/// relative to the root, whose own path is empty.
pub open spec fn child_path(dir: Seq<char>, name: Seq<char>) -> Seq<char> {
    if dir.len() == 0 {
        name
    } else {
        dir + seq!['/'] + name
    }
}

/// The path that a trail of names spells.
pub open spec fn path_of(trail: Seq<Seq<char>>) -> Seq<char>
    decreases trail.len(),
{
    if trail.len() == 0 {
        Seq::empty()
    } else {
        child_path(path_of(trail.drop_last()), trail.last())
    }
}

/// Whether no name of the trail is a hidden one.
pub open spec fn no_hidden(trail: Seq<Seq<char>>) -> bool {
    forall|i: int| 0 <= i < trail.len() ==> !is_hidden_name(#[trigger] trail[i])
}

/// A directory that was let through.
pub ghost struct DirModel {
    /// Its path from the root.
    pub rel_path: Seq<char>,
    pub real_path: Seq<char>,
    /// The names from the root down to it.
    pub trail: Seq<Seq<char>>,
    /// The `.ignore` files that bear on its entries, nearest first.
    pub ignore_chain: Seq<RulesModel>,
    /// The `.gitignore` files that bear on its entries, nearest first.
    pub git_chain: Seq<RulesModel>,
}

/// A file that was let through: a candidate for matching.
pub ghost struct CandidateModel {
    pub rel_path: Seq<char>,
    pub name: Seq<char>,
    pub real_path: Seq<char>,
    pub trail: Seq<Seq<char>>,
}

/// What holds of everything that is let through: its path is the one its
/// trail spells, the number of directories above it is within the depth
/// limit, and, unless hidden entries take part, none of its names is hidden.
pub open spec fn trail_ok(m: FilterModel, path: Seq<char>, trail: Seq<Seq<char>>, depth: nat) -> bool {
    &&& path == path_of(trail)
    &&& m.depth_limit matches Some(l) ==> depth <= l
    &&& !m.include_hidden ==> no_hidden(trail)
}

/// What holds of a directory that was let through. Its entries lie as many
/// directories below the root as its trail has names.
pub open spec fn dir_ok(m: FilterModel, d: DirModel) -> bool {
    trail_ok(m, d.rel_path, d.trail, d.trail.len())
}

/// What holds of a candidate.
pub open spec fn candidate_ok(m: FilterModel, c: CandidateModel) -> bool {
    &&& c.trail.len() > 0
    &&& c.trail.last() == c.name
    &&& trail_ok(m, c.rel_path, c.trail, (c.trail.len() - 1) as nat)
}

/// Whether directories found at `depth` may be entered: their entries must
/// not lie beyond the depth limit.
pub open spec fn may_descend(m: FilterModel, depth: nat) -> bool {
    m.depth_limit matches Some(l) ==> depth < l
}

/// What sifting a listing gives.
pub ghost struct Sifted {
    /// The real paths let through so far.
    pub seen: Set<Seq<char>>,
    /// The directories to enter, in the order found.
    pub dirs: Seq<DirModel>,
    /// The files to match, in the order found.
    pub files: Seq<CandidateModel>,
}

/// Whether the filter lets the entry `e` of directory `dir` take part.
pub open spec fn entry_admitted(m: FilterModel, dir: DirModel, e: EntryModel) -> bool {
    let path = child_path(dir.rel_path, e.name);
    let is_dir = e.kind == EntryKind::Directory;
    admits(
        m,
        e.name,
        path,
        is_dir,
        dir.trail.len(),
        chain_verdict(dir.ignore_chain, path, is_dir),
        chain_verdict(dir.git_chain, path, is_dir),
    )
}

/// Sifting one entry `e` of the directory `dir`. A file or directory is let
/// through if the filter admits it and its real path is new; a directory
/// also only where the depth limit allows entering it.
pub open spec fn sift_one(m: FilterModel, dir: DirModel, e: EntryModel, acc: Sifted) -> Sifted {
    let path = child_path(dir.rel_path, e.name);
    if e.kind == EntryKind::Other || !entry_admitted(m, dir, e) || acc.seen.contains(e.real_path) {
        acc
    } else if e.kind == EntryKind::Directory {
        if may_descend(m, dir.trail.len()) {
            Sifted {
                seen: acc.seen.insert(e.real_path),
                dirs: acc.dirs.push(
                    DirModel {
                        rel_path: path,
                        real_path: e.real_path,
                        trail: dir.trail.push(e.name),
                        ignore_chain: dir.ignore_chain,
                        git_chain: dir.git_chain,
                    },
                ),
                files: acc.files,
            }
        } else {
            acc
        }
    } else {
        Sifted {
            seen: acc.seen.insert(e.real_path),
            dirs: acc.dirs,
            files: acc.files.push(
                CandidateModel {
                    rel_path: path,
                    name: e.name,
                    real_path: e.real_path,
                    trail: dir.trail.push(e.name),
                },
            ),
        }
    }
}

/// Sifting the entries of the directory `dir`, in order, with `seen` the
/// real paths let through before.
pub open spec fn sift(m: FilterModel, dir: DirModel, entries: Seq<EntryModel>, seen: Set<Seq<char>>) -> Sifted
    decreases entries.len(),
{
    if entries.len() == 0 {
        Sifted { seen, dirs: Seq::empty(), files: Seq::empty() }
    } else {
        sift_one(m, dir, entries.last(), sift(m, dir, entries.drop_last(), seen))
    }
}

/// A trail with one more name spells the path of that name in the
/// directory that the trail spelled.
pub proof fn lemma_path_of_push(trail: Seq<Seq<char>>, name: Seq<char>)
    ensures
        path_of(trail.push(name)) == child_path(path_of(trail), name),
{
    assert(trail.push(name).drop_last() =~= trail);
}

/// What sifting lets through obeys the filter's laws. Every directory and
/// every file that comes out of a directory that was itself let through: has
/// no hidden name in its path, unless hidden entries take part; lies within
/// the depth limit; has a real path that was not seen before and that no
/// other one shares. What was seen before stays seen.
pub proof fn lemma_sift_laws(m: FilterModel, dir: DirModel, entries: Seq<EntryModel>, seen: Set<Seq<char>>)
    requires
        dir_ok(m, dir),
    ensures
        ({
            let s = sift(m, dir, entries, seen);
            &&& seen.subset_of(s.seen)
            &&& forall|i: int| 0 <= i < s.dirs.len() ==> dir_ok(m, #[trigger] s.dirs[i])
            &&& forall|i: int| 0 <= i < s.files.len() ==> candidate_ok(m, #[trigger] s.files[i])
            &&& forall|i: int|
                0 <= i < s.dirs.len() ==> !seen.contains((#[trigger] s.dirs[i]).real_path)
                    && s.seen.contains(s.dirs[i].real_path)
            &&& forall|i: int|
                0 <= i < s.files.len() ==> !seen.contains((#[trigger] s.files[i]).real_path)
                    && s.seen.contains(s.files[i].real_path)
            &&& forall|i: int, j: int|
                0 <= i < j < s.dirs.len() ==> (#[trigger] s.dirs[i]).real_path != (
                #[trigger] s.dirs[j]).real_path
            &&& forall|i: int, j: int|
                0 <= i < j < s.files.len() ==> (#[trigger] s.files[i]).real_path != (
                #[trigger] s.files[j]).real_path
            &&& forall|i: int, j: int|
                0 <= i < s.dirs.len() && 0 <= j < s.files.len() ==> (#[trigger] s.dirs[i]).real_path
                    != (#[trigger] s.files[j]).real_path
            &&& forall|p: Seq<char>|
                s.seen.contains(p) ==> seen.contains(p) || (exists|i: int|
                    0 <= i < s.dirs.len() && (#[trigger] s.dirs[i]).real_path == p) || (exists|
                    j: int,
                | 0 <= j < s.files.len() && (#[trigger] s.files[j]).real_path == p)
        }),
    decreases entries.len(),
{
    if entries.len() > 0 {
        let e = entries.last();
        let acc = sift(m, dir, entries.drop_last(), seen);
        let s = sift(m, dir, entries, seen);
        lemma_sift_laws(m, dir, entries.drop_last(), seen);
        lemma_path_of_push(dir.trail, e.name);
        if s != acc {
            let trail = dir.trail.push(e.name);
            assert(entry_admitted(m, dir, e));
            assert(!m.include_hidden ==> !is_hidden_name(e.name));
            assert forall|i: int| 0 <= i < trail.len() && !m.include_hidden implies !is_hidden_name(
                #[trigger] trail[i],
            ) by {
                if i < dir.trail.len() {
                    assert(trail[i] == dir.trail[i]);
                }
            }
            assert(m.depth_limit matches Some(l) ==> dir.trail.len() <= l);
            if e.kind == EntryKind::Directory {
                let d = s.dirs.last();
                assert(dir_ok(m, d));
                assert forall|p: Seq<char>| s.seen.contains(p) implies seen.contains(p) || (exists|
                    i: int,
                | 0 <= i < s.dirs.len() && (#[trigger] s.dirs[i]).real_path == p) || (exists|j: int|
                    0 <= j < s.files.len() && (#[trigger] s.files[j]).real_path == p) by {
                    if p == e.real_path {
                        assert(s.dirs[s.dirs.len() - 1].real_path == p);
                    } else {
                        assert(acc.seen.contains(p));
                        if exists|i: int| 0 <= i < acc.dirs.len() && (#[trigger] acc.dirs[i]).real_path == p {
                            let i = choose|i: int| 0 <= i < acc.dirs.len() && (#[trigger] acc.dirs[i]).real_path == p;
                            assert(s.dirs[i].real_path == p);
                        } else if exists|j: int| 0 <= j < acc.files.len() && (#[trigger] acc.files[j]).real_path == p {
                            let j = choose|j: int| 0 <= j < acc.files.len() && (#[trigger] acc.files[j]).real_path == p;
                            assert(s.files[j].real_path == p);
                        }
                    }
                }
            } else {
                let c = s.files.last();
                assert(c.trail.last() == c.name);
                assert(candidate_ok(m, c));
                assert forall|p: Seq<char>| s.seen.contains(p) implies seen.contains(p) || (exists|
                    i: int,
                | 0 <= i < s.dirs.len() && (#[trigger] s.dirs[i]).real_path == p) || (exists|j: int|
                    0 <= j < s.files.len() && (#[trigger] s.files[j]).real_path == p) by {
                    if p == e.real_path {
                        assert(s.files[s.files.len() - 1].real_path == p);
                    } else {
                        assert(acc.seen.contains(p));
                        if exists|j: int| 0 <= j < acc.files.len() && (#[trigger] acc.files[j]).real_path == p {
                            let j = choose|j: int| 0 <= j < acc.files.len() && (#[trigger] acc.files[j]).real_path == p;
                            assert(s.files[j].real_path == p);
                        } else if exists|i: int| 0 <= i < acc.dirs.len() && (#[trigger] acc.dirs[i]).real_path == p {
                            let i = choose|i: int| 0 <= i < acc.dirs.len() && (#[trigger] acc.dirs[i]).real_path == p;
                            assert(s.dirs[i].real_path == p);
                        }
                    }
                }
            }
        }
    }
}

/// Sifting misses nothing: every file of the listing that the filter
/// admits has been let through, now or before, and so has every directory
/// that the filter admits and that the depth limit allows entering.
pub proof fn lemma_sift_misses_nothing(
    m: FilterModel,
    dir: DirModel,
    entries: Seq<EntryModel>,
    seen: Set<Seq<char>>,
)
    ensures
        seen.subset_of(sift(m, dir, entries, seen).seen),
        forall|i: int|
            0 <= i < entries.len() && (#[trigger] entries[i]).kind == EntryKind::File && entry_admitted(
                m,
                dir,
                entries[i],
            ) ==> sift(m, dir, entries, seen).seen.contains(entries[i].real_path),
        forall|i: int|
            0 <= i < entries.len() && (#[trigger] entries[i]).kind == EntryKind::Directory
                && entry_admitted(m, dir, entries[i]) && may_descend(m, dir.trail.len()) ==> sift(
                m,
                dir,
                entries,
                seen,
            ).seen.contains(entries[i].real_path),
    decreases entries.len(),
{
    if entries.len() > 0 {
        let init = entries.drop_last();
        lemma_sift_misses_nothing(m, dir, init, seen);
        let acc = sift(m, dir, init, seen);
        let s = sift(m, dir, entries, seen);
        assert(acc.seen.subset_of(s.seen));
        assert forall|i: int|
            0 <= i < entries.len() && (#[trigger] entries[i]).kind == EntryKind::File && entry_admitted(
                m,
                dir,
                entries[i],
            ) implies s.seen.contains(entries[i].real_path) by {
            if i < init.len() {
                assert(init[i] == entries[i]);
            }
        }
        assert forall|i: int|
            0 <= i < entries.len() && (#[trigger] entries[i]).kind == EntryKind::Directory
                && entry_admitted(m, dir, entries[i]) && may_descend(
                m,
                dir.trail.len(),
            ) implies s.seen.contains(entries[i].real_path) by {
            if i < init.len() {
                assert(init[i] == entries[i]);
            }
        }
    }
}

/// The model of a compiled rule set.
pub open spec fn rules_model(s: RuleSet) -> RulesModel {
    RulesModel { root: s.root(), lines: s.lines() }
}

/// The chain that the indices `chain` pick from `sets`.
spec fn chain_models(sets: Seq<RuleSet>, chain: Seq<usize>) -> Seq<RulesModel> {
    Seq::new(chain.len(), |k: int| rules_model(sets[chain[k] as int]))
}

/// Whether every index of `chain` names a set.
spec fn chain_valid(sets: Seq<RuleSet>, chain: Seq<usize>) -> bool {
    forall|k: int| 0 <= k < chain.len() ==> #[trigger] chain[k] < sets.len()
}

/// A chain picks the same rules from a longer list of sets.
proof fn lemma_chain_stable(sets: Seq<RuleSet>, more: Seq<RuleSet>, chain: Seq<usize>)
    requires
        chain_valid(sets, chain),
        sets.len() <= more.len(),
        forall|i: int| 0 <= i < sets.len() ==> sets[i] == more[i],
    ensures
        chain_valid(more, chain),
        chain_models(more, chain) == chain_models(sets, chain),
{
    assert(chain_models(more, chain) =~= chain_models(sets, chain));
}

/// What the chain `chain` of `sets` says of `path`.
fn chain_verdict_of(sets: &Vec<RuleSet>, chain: &Vec<usize>, path: &str, is_dir: bool) -> (r: Verdict)
    requires
        chain_valid(sets@, chain@),
    ensures
        r == chain_verdict(chain_models(sets@, chain@), path@, is_dir),
{
    let ghost levels = chain_models(sets@, chain@);
    let mut k: usize = 0;
    proof {
        assert(levels.skip(0) =~= levels);
    }
    while k < chain.len()
        invariant
            k <= chain@.len(),
            chain_valid(sets@, chain@),
            levels == chain_models(sets@, chain@),
            chain_verdict(levels, path@, is_dir) == chain_verdict(
                levels.skip(k as int),
                path@,
                is_dir,
            ),
        decreases chain@.len() - k,
    {
        let v = sets[chain[k]].matched(path, is_dir);
        proof {
            let rest = levels.skip(k as int);
            assert(rest[0] == levels[k as int]);
            assert(rest.skip(1) =~= levels.skip(k + 1));
        }
        if v != Verdict::Unmatched {
            return v;
        }
        k = k + 1;
    }
    Verdict::Unmatched
}

/// A copy of a chain with one more set in front.
fn chain_with(front: Option<usize>, chain: &Vec<usize>) -> (r: Vec<usize>)
    ensures
        r@ == match front {
            Some(x) => seq![x] + chain@,
            None => chain@,
        },
{
    let mut r: Vec<usize> = Vec::new();
    match front {
        Some(x) => {
            r.push(x);
        },
        None => {},
    }
    let ghost head = r@;
    let mut k: usize = 0;
    while k < chain.len()
        invariant
            k <= chain@.len(),
            r@ == head + chain@.take(k as int),
        decreases chain@.len() - k,
    {
        r.push(chain[k]);
        proof {
            assert(head + chain@.take(k + 1) =~= (head + chain@.take(k as int)).push(chain@[k as int]));
        }
        k = k + 1;
    }
    proof {
        assert(chain@.take(k as int) =~= chain@);
    }
    r
}

/// The path of the entry `name` in the directory at `dir`.
pub fn join_path(dir: &str, name: &str) -> (r: String)
    ensures
        r@ == child_path(dir@, name@),
{
    if dir.is_empty() {
        String::from_str(name)
    } else {
        let mut s = String::from_str(dir);
        s.append("/");
        s.append(name);
        proof {
            reveal_strlit("/");
            assert("/"@ =~= seq!['/']);
        }
        s
    }
}

/// A directory that waits to be listed, or is being listed.
struct PendingDir {
    rel_path: String,
    real_path: String,
    /// How many levels below this directory's entries may still be entered;
    /// `None` where there is no depth limit.
    remaining: Option<usize>,
    ignore_chain: Vec<usize>,
    git_chain: Vec<usize>,
    trail: Ghost<Seq<Seq<char>>>,
}

impl PendingDir {
    spec fn model(&self, sets: Seq<RuleSet>) -> DirModel {
        DirModel {
            rel_path: self.rel_path@,
            real_path: self.real_path@,
            trail: self.trail@,
            ignore_chain: chain_models(sets, self.ignore_chain@),
            git_chain: chain_models(sets, self.git_chain@),
        }
    }

    spec fn ok(&self, sets: Seq<RuleSet>, m: FilterModel) -> bool {
        &&& chain_valid(sets, self.ignore_chain@)
        &&& chain_valid(sets, self.git_chain@)
        &&& dir_ok(m, self.model(sets))
        &&& match m.depth_limit {
            Some(l) => self.remaining matches Some(r) && self.trail@.len() + r == l,
            None => self.remaining is None,
        }
    }
}

/// The models of the directories of a queue, in order.
spec fn dir_models(v: Seq<PendingDir>, sets: Seq<RuleSet>) -> Seq<DirModel> {
    Seq::new(v.len(), |i: int| v[i].model(sets))
}

/// The models of the slots of directories being listed.
spec fn slot_models(v: Seq<Option<PendingDir>>, sets: Seq<RuleSet>) -> Seq<Option<DirModel>> {
    Seq::new(
        v.len(),
        |i: int|
            match v[i] {
                Some(d) => Some(d.model(sets)),
                None => None,
            },
    )
}

/// A file that the traverser let through: a candidate for matching.
pub struct Candidate {
    /// The file's path from the root of the search.
    pub rel_path: String,
    /// The file's name: the last component of its path.
    pub name: String,
    /// The file's canonical path.
    pub real_path: String,
    /// The names from the root down to the file.
    pub trail: Ghost<Seq<Seq<char>>>,
}

impl View for Candidate {
    type V = CandidateModel;

    open spec fn view(&self) -> CandidateModel {
        CandidateModel {
            rel_path: self.rel_path@,
            name: self.name@,
            real_path: self.real_path@,
            trail: self.trail@,
        }
    }
}

/// The models of a sequence of candidates, in order.
pub open spec fn candidate_models(v: Seq<Candidate>) -> Seq<CandidateModel> {
    Seq::new(v.len(), |i: int| v[i]@)
}

/// Sifts the entries of one directory: those let through go to `pending`
/// if they are directories and are returned if they are files.
fn sift_entries(
    filter: &PathFilter,
    sets: &Vec<RuleSet>,
    dir: &PendingDir,
    entries: &Vec<DirEntry>,
    seen: &mut StringHashSet,
    pending: &mut VecDeque<PendingDir>,
) -> (files: Vec<Candidate>)
    requires
        dir.ok(sets@, filter@),
        forall|i: int| 0 <= i < old(pending)@.len() ==> (#[trigger] old(pending)@[i]).ok(sets@, filter@),
    ensures
        ({
            let s = sift(filter@, dir.model(sets@), entry_models(entries@), old(seen)@);
            &&& final(seen)@ == s.seen
            &&& dir_models(final(pending)@, sets@) == dir_models(old(pending)@, sets@) + s.dirs
            &&& candidate_models(files@) == s.files
        }),
        forall|i: int| 0 <= i < final(pending)@.len() ==> (#[trigger] final(pending)@[i]).ok(sets@, filter@),
{
    let ghost m = filter@;
    let ghost dm = dir.model(sets@);
    let ghost all = entry_models(entries@);
    let ghost seen0 = seen@;
    let ghost pending0 = pending@;
    let mut files: Vec<Candidate> = Vec::new();
    let limit = filter.depth_limit();
    let depth: usize = match (limit, dir.remaining) {
        (Some(l), Some(r)) => l - r,
        _ => 0,
    };
    let mut i: usize = 0;
    proof {
        assert(dir_models(pending@, sets@) =~= dir_models(pending0, sets@) + sift(m, dm, all.take(0), seen0).dirs);
        assert(candidate_models(files@) =~= sift(m, dm, all.take(0), seen0).files);
    }
    while i < entries.len()
        invariant
            i <= entries@.len(),
            m == filter@,
            dm == dir.model(sets@),
            all == entry_models(entries@),
            dir.ok(sets@, m),
            limit is Some == m.depth_limit is Some,
            limit matches Some(l) ==> m.depth_limit == Some(l as nat),
            m.depth_limit is Some ==> depth == dm.trail.len(),
            seen@ == sift(m, dm, all.take(i as int), seen0).seen,
            dir_models(pending@, sets@) == dir_models(pending0, sets@) + sift(
                m,
                dm,
                all.take(i as int),
                seen0,
            ).dirs,
            candidate_models(files@) == sift(m, dm, all.take(i as int), seen0).files,
            forall|k: int| 0 <= k < pending@.len() ==> (#[trigger] pending@[k]).ok(sets@, m),
        decreases entries@.len() - i,
    {
        let e = &entries[i];
        let ghost acc = sift(m, dm, all.take(i as int), seen0);
        let ghost next = sift(m, dm, all.take(i + 1), seen0);
        proof {
            assert(all.take(i + 1).drop_last() =~= all.take(i as int));
            assert(all.take(i + 1).last() == e@);
            assert(next == sift_one(m, dm, e@, acc));
            lemma_sift_laws(m, dm, all.take(i + 1), seen0);
        }
        let is_dir = e.kind == EntryKind::Directory;
        if e.kind != EntryKind::Other {
            let path = join_path(dir.rel_path.as_str(), e.name.as_str());
            let ignore_file = if filter.uses_ignore_files() {
                chain_verdict_of(sets, &dir.ignore_chain, path.as_str(), is_dir)
            } else {
                Verdict::Unmatched
            };
            let gitignore = if filter.uses_gitignore() {
                chain_verdict_of(sets, &dir.git_chain, path.as_str(), is_dir)
            } else {
                Verdict::Unmatched
            };
            let ok = filter.eligible(e.name.as_str(), path.as_str(), is_dir, depth, ignore_file, gitignore);
            assert(ok == entry_admitted(m, dm, e@));
            if ok && !seen.contains(e.real_path.as_str()) {
                if is_dir {
                    let enter = match dir.remaining {
                        Some(r) => r > 0,
                        None => true,
                    };
                    assert(enter == may_descend(m, dm.trail.len()));
                    if enter {
                        let remaining = match dir.remaining {
                            Some(r) => Some(r - 1),
                            None => None,
                        };
                        let sub = PendingDir {
                            rel_path: path,
                            real_path: e.real_path.clone(),
                            remaining,
                            ignore_chain: chain_with(None, &dir.ignore_chain),
                            git_chain: chain_with(None, &dir.git_chain),
                            trail: Ghost(dm.trail.push(e.name@)),
                        };
                        proof {
                            assert(sub.ignore_chain@ =~= dir.ignore_chain@);
                            assert(sub.git_chain@ =~= dir.git_chain@);
                            assert(sub.model(sets@) == next.dirs.last());
                            assert(dir_ok(m, next.dirs[next.dirs.len() - 1]));
                        }
                        let _ = seen.insert(e.real_path.clone());
                        let ghost before = pending@;
                        pending.push_back(sub);
                        proof {
                            assert(dir_models(pending@, sets@) =~= dir_models(before, sets@).push(
                                sub.model(sets@),
                            ));
                            assert(dir_models(pending@, sets@) =~= dir_models(pending0, sets@) + next.dirs);
                            assert forall|k: int| 0 <= k < pending@.len() implies (#[trigger] pending@[k]).ok(
                                sets@,
                                m,
                            ) by {
                                if k < before.len() {
                                    assert(pending@[k] == before[k]);
                                }
                            }
                        }
                    }
                } else {
                    let c = Candidate {
                        rel_path: path,
                        name: e.name.clone(),
                        real_path: e.real_path.clone(),
                        trail: Ghost(dm.trail.push(e.name@)),
                    };
                    let _ = seen.insert(e.real_path.clone());
                    let ghost before = files@;
                    files.push(c);
                    proof {
                        assert(candidate_models(files@) =~= candidate_models(before).push(c@));
                    }
                }
            }
        }
        i = i + 1;
    }
    proof {
        assert(all.take(i as int) =~= all);
    }
    files
}

/// What the caller found in one directory.
pub struct DirListing {
    /// The directory's entries, in any order.
    pub entries: Vec<DirEntry>,
    /// The lines of the directory's `.ignore` file, if it has one.
    pub ignore_lines: Option<Vec<String>>,
    /// The lines of the directory's `.gitignore` file, if it has one.
    pub gitignore_lines: Option<Vec<String>>,
}

/// What a [`DirListing`] says.
pub ghost struct ListingModel {
    pub entries: Seq<EntryModel>,
    pub ignore_lines: Option<Seq<Seq<char>>>,
    pub gitignore_lines: Option<Seq<Seq<char>>>,
}

impl View for DirListing {
    type V = ListingModel;

    open spec fn view(&self) -> ListingModel {
        ListingModel {
            entries: entry_models(self.entries@),
            ignore_lines: lines_of(self.ignore_lines),
            gitignore_lines: lines_of(self.gitignore_lines),
        }
    }
}

/// The texts of an optional list of lines.
pub open spec fn lines_of(lines: Option<Vec<String>>) -> Option<Seq<Seq<char>>> {
    match lines {
        Some(v) => Some(texts(v@)),
        None => None,
    }
}

/// A directory handed out for listing.
pub struct DirJob {
    /// The number under which the listing is to be handed in.
    pub id: usize,
    /// The directory's path from the root of the search; empty for the root.
    pub rel_path: String,
    /// The directory's canonical path.
    pub real_path: String,
}

/// The state of a walk.
pub ghost struct WalkModel {
    pub filter: FilterModel,
    /// The directories that wait to be listed, first in first out.
    pub pending: Seq<DirModel>,
    /// The directories handed out for listing, by job number.
    pub active: Seq<Option<DirModel>>,
    /// By job number: whether the job's listing came in and its files are
    /// still being looked at.
    pub scanning: Seq<bool>,
    /// The real paths of everything let through so far.
    pub seen: Set<Seq<char>>,
}

/// The root of a search as a directory to list: its path from the root is
/// empty, and no ignore file bears on it yet.
pub open spec fn root_dir(root_real_path: Seq<char>) -> DirModel {
    DirModel {
        rel_path: Seq::empty(),
        real_path: root_real_path,
        trail: Seq::empty(),
        ignore_chain: Seq::empty(),
        git_chain: Seq::empty(),
    }
}

/// The state in which a walk starts: the root waits to be listed, and only
/// its real path has been seen.
pub open spec fn initial_walk(filter: FilterModel, root_real_path: Seq<char>) -> WalkModel {
    WalkModel {
        filter,
        pending: seq![root_dir(root_real_path)],
        active: Seq::empty(),
        scanning: Seq::empty(),
        seen: Set::empty().insert(root_real_path),
    }
}

/// Whether a job number names a directory that is being listed.
pub open spec fn is_active(w: WalkModel, id: int) -> bool {
    0 <= id < w.active.len() && w.active[id] is Some
}

/// Whether a job number names a job whose files are being looked at.
pub open spec fn is_scanning(w: WalkModel, id: int) -> bool {
    0 <= id < w.scanning.len() && w.scanning[id]
}

/// Whether the job number `id` is the one that the next job gets: the
/// smallest number that is free, or the next one where none is.
pub open spec fn is_next_job(w: WalkModel, id: int) -> bool {
    &&& 0 <= id <= w.active.len()
    &&& !is_active(w, id)
    &&& !is_scanning(w, id)
    &&& forall|k: int| 0 <= k < id ==> is_active(w, k) || is_scanning(w, k)
}

/// The state after the directory that waited longest was handed out under
/// the job number `id`.
pub open spec fn after_handing_out(w: WalkModel, id: int) -> WalkModel {
    if id < w.active.len() {
        WalkModel { pending: w.pending.skip(1), active: w.active.update(id, Some(w.pending[0])), ..w }
    } else {
        WalkModel {
            pending: w.pending.skip(1),
            active: w.active.push(Some(w.pending[0])),
            scanning: w.scanning.push(false),
            ..w
        }
    }
}

/// Whether the walk is over: no directory waits, none is being listed, and
/// no worker still looks at the files of a listing.
pub open spec fn quiescent(w: WalkModel) -> bool {
    &&& w.pending.len() == 0
    &&& forall|i: int| 0 <= i < w.active.len() ==> (#[trigger] w.active[i]) is None
    &&& forall|i: int| 0 <= i < w.scanning.len() ==> !#[trigger] w.scanning[i]
}

/// The directory whose entries are sifted when the listing of `d` comes in:
/// `d` itself, with its own ignore files put in front of its chains.
pub open spec fn scoped_dir(
    m: FilterModel,
    d: DirModel,
    ignore_lines: Option<Seq<Seq<char>>>,
    gitignore_lines: Option<Seq<Seq<char>>>,
) -> DirModel {
    DirModel {
        ignore_chain: extend_chain(d.ignore_chain, m.use_ignore_files, d.rel_path, ignore_lines),
        git_chain: extend_chain(d.git_chain, m.use_gitignore, d.rel_path, gitignore_lines),
        ..d
    }
}

/// The state after the listing of job `id` came in, and the files it
/// brought: the directories to enter join the queue, and the job goes on
/// to look at the files. Requires `is_active(w, id)`.
pub open spec fn after_listing(
    w: WalkModel,
    id: int,
    entries: Seq<EntryModel>,
    ignore_lines: Option<Seq<Seq<char>>>,
    gitignore_lines: Option<Seq<Seq<char>>>,
) -> (WalkModel, Seq<CandidateModel>) {
    let d = scoped_dir(w.filter, w.active[id]->0, ignore_lines, gitignore_lines);
    let s = sift(w.filter, d, entries, w.seen);
    (
        WalkModel {
            filter: w.filter,
            pending: w.pending + s.dirs,
            active: w.active.update(id, None),
            scanning: w.scanning.update(id, true),
            seen: s.seen,
        },
        s.files,
    )
}

/// The state after job `id`, whose directory could not be listed, was
/// given up.
pub open spec fn after_skipping(w: WalkModel, id: int) -> WalkModel {
    WalkModel { active: w.active.update(id, None), ..w }
}

/// The state after job `id` is done with its files.
pub open spec fn after_finishing(w: WalkModel, id: int) -> WalkModel {
    WalkModel { scanning: w.scanning.update(id, false), ..w }
}

/// What holds of every state of a walk: each directory that waits or is
/// being listed was let through by the filter's laws, and a job either
/// lists or looks at files, not both.
pub open spec fn walk_ok(w: WalkModel) -> bool {
    &&& forall|i: int| 0 <= i < w.pending.len() ==> dir_ok(w.filter, #[trigger] w.pending[i])
    &&& forall|i: int|
        0 <= i < w.active.len() ==> ((#[trigger] w.active[i]) matches Some(d) ==> dir_ok(w.filter, d))
    &&& w.scanning.len() == w.active.len()
    &&& forall|i: int| 0 <= i < w.active.len() ==> !((#[trigger] w.active[i]) is Some && w.scanning[i])
}

/// The traverser of one search.
pub struct Traverser {
    filter: PathFilter,
    /// Every ignore file compiled so far; chains name them by index.
    sets: Vec<RuleSet>,
    pending: VecDeque<PendingDir>,
    active: Vec<Option<PendingDir>>,
    scanning: Vec<bool>,
    seen: StringHashSet,
}

impl View for Traverser {
    type V = WalkModel;

    closed spec fn view(&self) -> WalkModel {
        WalkModel {
            filter: self.filter@,
            pending: dir_models(self.pending@, self.sets@),
            active: slot_models(self.active@, self.sets@),
            scanning: self.scanning@,
            seen: self.seen@,
        }
    }
}

/// Compiles the ignore file of the directory at `dir_path`, if it is to be
/// read and there is one, and gives the chain of the directory's entries.
fn extend(
    sets: &mut Vec<RuleSet>,
    chain: &Vec<usize>,
    enabled: bool,
    dir_path: &str,
    lines: &Option<Vec<String>>,
) -> (r: Vec<usize>)
    requires
        chain_valid(old(sets)@, chain@),
    ensures
        old(sets)@.len() <= final(sets)@.len(),
        forall|i: int| 0 <= i < old(sets)@.len() ==> old(sets)@[i] == final(sets)@[i],
        chain_valid(final(sets)@, r@),
        chain_models(final(sets)@, r@) == extend_chain(
            chain_models(old(sets)@, chain@),
            enabled,
            dir_path@,
            lines_of(*lines),
        ),
{
    let ghost before = sets@;
    let mut front: Option<usize> = None;
    if enabled {
        match lines {
            Some(ls) => {
                match RuleSet::compile(dir_path, ls, false) {
                    Some(set) => {
                        front = Some(sets.len());
                        sets.push(set);
                    },
                    None => {},
                }
            },
            None => {},
        }
    }
    let r = chain_with(front, chain);
    proof {
        lemma_chain_stable(before, sets@, chain@);
        assert(chain_models(sets@, r@) =~= extend_chain(
            chain_models(before, chain@),
            enabled,
            dir_path@,
            lines_of(*lines),
        ));
    }
    r
}

impl Traverser {
    /// The traverser's invariant.
    pub closed spec fn wf(&self) -> bool {
        &&& forall|i: int|
            0 <= i < self.pending@.len() ==> (#[trigger] self.pending@[i]).ok(self.sets@, self.filter@)
        &&& forall|i: int|
            0 <= i < self.active@.len() ==> ((#[trigger] self.active@[i]) matches Some(d) ==> d.ok(
                self.sets@,
                self.filter@,
            ))
        &&& self.scanning@.len() == self.active@.len()
        &&& forall|i: int|
            0 <= i < self.active@.len() ==> !((#[trigger] self.active@[i]) is Some && self.scanning@[i])
    }

    /// In every state the filter's laws hold of what waits and of what is
    /// being listed.
    pub proof fn lemma_walk_ok(&self)
        requires
            self.wf(),
        ensures
            walk_ok(self@),
    {
        assert forall|i: int| 0 <= i < self@.pending.len() implies dir_ok(
            self@.filter,
            #[trigger] self@.pending[i],
        ) by {
            assert(self.pending@[i].ok(self.sets@, self.filter@));
        }
        assert forall|i: int| 0 <= i < self@.active.len() implies ((#[trigger] self@.active[i]) matches Some(
            d,
        ) ==> dir_ok(self@.filter, d)) by {
            match self.active@[i] {
                Some(d) => {
                    assert(d.ok(self.sets@, self.filter@));
                },
                None => {},
            }
        }
        assert forall|i: int| 0 <= i < self@.active.len() implies !((#[trigger] self@.active[i]) is Some
            && self@.scanning[i]) by {
            assert(!(self.active@[i] is Some && self.scanning@[i]));
        }
    }

    /// A walk that starts at the root whose canonical path is given.
    pub fn new(filter: PathFilter, root_real_path: String) -> (r: Traverser)
        ensures
            r.wf(),
            r@ == initial_walk(filter@, root_real_path@),
    {
        let root = PendingDir {
            rel_path: String::new(),
            real_path: root_real_path.clone(),
            remaining: filter.depth_limit(),
            ignore_chain: Vec::new(),
            git_chain: Vec::new(),
            trail: Ghost(Seq::empty()),
        };
        let mut seen = StringHashSet::new();
        let _ = seen.insert(root_real_path);
        let mut pending: VecDeque<PendingDir> = VecDeque::new();
        let sets: Vec<RuleSet> = Vec::new();
        let ghost m = filter@;
        proof {
            assert(chain_models(sets@, root.ignore_chain@) =~= Seq::<RulesModel>::empty());
            assert(chain_models(sets@, root.git_chain@) =~= Seq::<RulesModel>::empty());
            assert(root.ok(sets@, m));
        }
        pending.push_back(root);
        let r = Traverser { filter, sets, pending, active: Vec::new(), scanning: Vec::new(), seen };
        proof {
            assert(r@.pending =~= initial_walk(m, root_real_path@).pending);
            assert(r@.active =~= initial_walk(m, root_real_path@).active);
            assert(r@.scanning =~= initial_walk(m, root_real_path@).scanning);
        }
        r
    }

    /// The filter of the walk.
    pub fn filter(&self) -> (r: &PathFilter)
        ensures
            r@ == self@.filter,
    {
        &self.filter
    }

    /// Whether the walk is over.
    pub fn is_quiescent(&self) -> (r: bool)
        requires
            self.wf(),
        ensures
            r == quiescent(self@),
    {
        if self.pending.len() > 0 {
            return false;
        }
        let mut i: usize = 0;
        while i < self.active.len()
            invariant
                i <= self.active@.len(),
                self.scanning@.len() == self.active@.len(),
                forall|k: int| 0 <= k < i ==> (#[trigger] self@.active[k]) is None,
                forall|k: int| 0 <= k < i ==> !#[trigger] self@.scanning[k],
            decreases self.active@.len() - i,
        {
            if self.active[i].is_some() {
                assert(self@.active[i as int] is Some);
                return false;
            }
            if self.scanning[i] {
                assert(self@.scanning[i as int]);
                return false;
            }
            assert(self@.active[i as int] is None);
            i = i + 1;
        }
        true
    }

    /// Hands out the directory that has waited longest, if any waits. The
    /// job keeps its number until it is done.
    pub fn next_directory(&mut self) -> (r: Option<DirJob>)
        requires
            old(self).wf(),
        ensures
            final(self).wf(),
            match r {
                None => old(self)@.pending.len() == 0 && final(self)@ == old(self)@,
                Some(job) => {
                    &&& old(self)@.pending.len() > 0
                    &&& job.rel_path@ == old(self)@.pending[0].rel_path
                    &&& job.real_path@ == old(self)@.pending[0].real_path
                    &&& is_next_job(old(self)@, job.id as int)
                    &&& final(self)@ == after_handing_out(old(self)@, job.id as int)
                },
            },
    {
        let ghost w = self@;
        let ghost pending0 = self.pending@;
        let ghost active0 = self.active@;
        let dir = match self.pending.pop_front() {
            Some(d) => d,
            None => {
                return None;
            },
        };
        proof {
            assert(dir == pending0[0]);
            assert(dir.ok(self.sets@, self.filter@));
            assert(self@.pending =~= w.pending.skip(1));
            assert forall|i: int| 0 <= i < self.pending@.len() implies (#[trigger] self.pending@[i]).ok(
                self.sets@,
                self.filter@,
            ) by {
                assert(self.pending@[i] == pending0[i + 1]);
            }
        }
        let mut id: usize = 0;
        while id < self.active.len() && (self.active[id].is_some() || self.scanning[id])
            invariant
                id <= self.active@.len(),
                self.active@ == active0,
                self.scanning@ == w.scanning,
                w.active == slot_models(active0, self.sets@),
                self.scanning@.len() == self.active@.len(),
                forall|k: int| 0 <= k < id ==> is_active(w, k) || is_scanning(w, k),
            decreases self.active@.len() - id,
        {
            id = id + 1;
        }
        let job = DirJob { id, rel_path: dir.rel_path.clone(), real_path: dir.real_path.clone() };
        if id < self.active.len() {
            self.active[id] = Some(dir);
            proof {
                assert(self@.active =~= w.active.update(id as int, Some(w.pending[0])));
            }
        } else {
            self.active.push(Some(dir));
            self.scanning.push(false);
            proof {
                assert(self@.active =~= w.active.push(Some(w.pending[0])));
            }
        }
        proof {
            assert forall|i: int| 0 <= i < self.active@.len() implies ((#[trigger] self.active@[i]) matches Some(
                d,
            ) ==> d.ok(self.sets@, self.filter@)) by {
                if i != id {
                    assert(self.active@[i] == active0[i]);
                }
            }
            assert forall|i: int| 0 <= i < self.active@.len() implies !((#[trigger] self.active@[i]) is Some
                && self.scanning@[i]) by {
                if i != id {
                    assert(self.active@[i] == active0[i]);
                }
            }
        }
        Some(job)
    }

    /// Takes the listing of job `id` and gives the files that go on to
    /// matching; the directories to enter join the queue. The job stays
    /// out until it is reported done. Fails with `Internal`, and changes
    /// nothing, if no such job waits for its listing.
    pub fn submit_listing(&mut self, id: usize, listing: &DirListing) -> (r: Result<
        Vec<Candidate>,
        crate::error::SearchError,
    >)
        requires
            old(self).wf(),
        ensures
            final(self).wf(),
            match r {
                Ok(files) => {
                    &&& is_active(old(self)@, id as int)
                    &&& final(self)@ == after_listing(
                        old(self)@,
                        id as int,
                        entry_models(listing.entries@),
                        lines_of(listing.ignore_lines),
                        lines_of(listing.gitignore_lines),
                    ).0
                    &&& candidate_models(files@) == after_listing(
                        old(self)@,
                        id as int,
                        entry_models(listing.entries@),
                        lines_of(listing.ignore_lines),
                        lines_of(listing.gitignore_lines),
                    ).1
                },
                Err(e) => {
                    &&& e == crate::error::SearchError::Internal
                    &&& !is_active(old(self)@, id as int)
                    &&& final(self)@ == old(self)@
                },
            },
    {
        let ghost w = self@;
        let ghost sets0 = self.sets@;
        let ghost pending0 = self.pending@;
        let ghost active0 = self.active@;
        if id >= self.active.len() {
            return Err(crate::error::SearchError::Internal);
        }
        let dir = match self.active[id].take() {
            Some(d) => d,
            None => {
                proof {
                    assert(self.active@ =~= active0);
                }
                return Err(crate::error::SearchError::Internal);
            },
        };
        self.scanning[id] = true;
        proof {
            assert(active0[id as int] == Some(dir));
            assert(dir.ok(sets0, self.filter@));
            assert(w.active[id as int] == Some(dir.model(sets0)));
            assert(self.scanning@ =~= w.scanning.update(id as int, true));
        }
        let ignore_chain = extend(
            &mut self.sets,
            &dir.ignore_chain,
            self.filter.uses_ignore_files(),
            dir.rel_path.as_str(),
            &listing.ignore_lines,
        );
        let ghost sets1 = self.sets@;
        proof {
            lemma_chain_stable(sets0, sets1, dir.git_chain@);
        }
        let git_chain = extend(
            &mut self.sets,
            &dir.git_chain,
            self.filter.uses_gitignore(),
            dir.rel_path.as_str(),
            &listing.gitignore_lines,
        );
        let ghost sets2 = self.sets@;
        let scoped = PendingDir {
            rel_path: dir.rel_path,
            real_path: dir.real_path,
            remaining: dir.remaining,
            ignore_chain,
            git_chain,
            trail: dir.trail,
        };
        proof {
            lemma_chain_stable(sets1, sets2, scoped.ignore_chain@);
            assert(scoped.model(sets2) == scoped_dir(
                w.filter,
                dir.model(sets0),
                lines_of(listing.ignore_lines),
                lines_of(listing.gitignore_lines),
            ));
            assert(scoped.ok(sets2, self.filter@));
            assert forall|i: int| 0 <= i < self.pending@.len() implies (#[trigger] self.pending@[i]).ok(
                sets2,
                self.filter@,
            ) && self.pending@[i].model(sets2) == self.pending@[i].model(sets0) by {
                let d = self.pending@[i];
                assert(d.ok(sets0, self.filter@));
                lemma_chain_stable(sets0, sets2, d.ignore_chain@);
                lemma_chain_stable(sets0, sets2, d.git_chain@);
            }
            assert(dir_models(self.pending@, sets2) =~= dir_models(pending0, sets0));
            assert forall|i: int| 0 <= i < self.active@.len() implies (match (#[trigger] self.active@[i]) {
                Some(d) => d.ok(sets2, self.filter@) && d.model(sets2) == d.model(sets0) && !self.scanning@[i],
                None => true,
            }) by {
                match self.active@[i] {
                    Some(d) => {
                        assert(i != id);
                        assert(active0[i] == Some(d));
                        assert(d.ok(sets0, self.filter@));
                        lemma_chain_stable(sets0, sets2, d.ignore_chain@);
                        lemma_chain_stable(sets0, sets2, d.git_chain@);
                    },
                    None => {},
                }
            }
            assert(slot_models(self.active@, sets2) =~= w.active.update(id as int, None));
        }
        let files = sift_entries(
            &self.filter,
            &self.sets,
            &scoped,
            &listing.entries,
            &mut self.seen,
            &mut self.pending,
        );
        Ok(files)
    }

    /// Gives up job `id`, whose directory could not be listed: it brings
    /// nothing, and its number is free again. Fails with `Internal`, and
    /// changes nothing, if no such job waits for its listing.
    pub fn skip_directory(&mut self, id: usize) -> (r: Result<(), crate::error::SearchError>)
        requires
            old(self).wf(),
        ensures
            final(self).wf(),
            match r {
                Ok(()) => is_active(old(self)@, id as int) && final(self)@ == after_skipping(
                    old(self)@,
                    id as int,
                ),
                Err(e) => {
                    &&& e == crate::error::SearchError::Internal
                    &&& !is_active(old(self)@, id as int)
                    &&& final(self)@ == old(self)@
                },
            },
    {
        let ghost active0 = self.active@;
        if id >= self.active.len() {
            return Err(crate::error::SearchError::Internal);
        }
        match self.active[id].take() {
            Some(_) => {
                proof {
                    assert(self@.active =~= old(self)@.active.update(id as int, None));
                    assert forall|i: int| 0 <= i < self.active@.len() implies ((
                    #[trigger] self.active@[i]) matches Some(d) ==> d.ok(self.sets@, self.filter@)) by {
                        if i != id {
                            assert(self.active@[i] == active0[i]);
                        }
                    }
                    assert forall|i: int| 0 <= i < self.active@.len() implies !((
                    #[trigger] self.active@[i]) is Some && self.scanning@[i]) by {
                        if i != id {
                            assert(self.active@[i] == active0[i]);
                        }
                    }
                }
                Ok(())
            },
            None => {
                proof {
                    assert(self.active@ =~= active0);
                }
                Err(crate::error::SearchError::Internal)
            },
        }
    }

    /// Reports job `id` done: its files have been looked at, and its
    /// number is free again. Fails with `Internal`, and changes nothing,
    /// if no such job looks at files.
    pub fn finish_job(&mut self, id: usize) -> (r: Result<(), crate::error::SearchError>)
        requires
            old(self).wf(),
        ensures
            final(self).wf(),
            match r {
                Ok(()) => is_scanning(old(self)@, id as int) && final(self)@ == after_finishing(
                    old(self)@,
                    id as int,
                ),
                Err(e) => {
                    &&& e == crate::error::SearchError::Internal
                    &&& !is_scanning(old(self)@, id as int)
                    &&& final(self)@ == old(self)@
                },
            },
    {
        if id >= self.scanning.len() || !self.scanning[id] {
            return Err(crate::error::SearchError::Internal);
        }
        self.scanning[id] = false;
        proof {
            assert(self@.scanning =~= old(self)@.scanning.update(id as int, false));
        }
        Ok(())
    }
}

/// The number of directories that are being listed.
pub open spec fn active_count(active: Seq<Option<DirModel>>) -> nat
    decreases active.len(),
{
    if active.len() == 0 {
        0
    } else {
        active_count(active.drop_last()) + if active.last() is Some {
            1nat
        } else {
            0nat
        }
    }
}

/// The number of jobs whose files are being looked at.
pub open spec fn scanning_count(scanning: Seq<bool>) -> nat
    decreases scanning.len(),
{
    if scanning.len() == 0 {
        0
    } else {
        scanning_count(scanning.drop_last()) + if scanning.last() {
            1nat
        } else {
            0nat
        }
    }
}

/// A number that every step of a walk makes smaller, so that a walk ends.
/// `universe` is the set of all real paths that the tree holds: as it is
/// finite, and nothing is let through twice, only so much can be let through.
pub open spec fn walk_measure(w: WalkModel, universe: Set<Seq<char>>) -> nat {
    4 * universe.difference(w.seen).len() + 3 * w.pending.len() + 2 * active_count(w.active)
        + scanning_count(w.scanning)
}

/// Putting a directory in a free slot makes one more directory active.
pub proof fn lemma_active_count_filled(active: Seq<Option<DirModel>>, id: int, d: DirModel)
    requires
        0 <= id <= active.len(),
        id < active.len() ==> active[id] is None,
    ensures
        active_count(
            if id < active.len() {
                active.update(id, Some(d))
            } else {
                active.push(Some(d))
            },
        ) == active_count(active) + 1,
    decreases active.len(),
{
    if id < active.len() {
        let next = active.update(id, Some(d));
        if id == active.len() - 1 {
            assert(next.drop_last() =~= active.drop_last());
        } else {
            lemma_active_count_filled(active.drop_last(), id, d);
            assert(next.drop_last() =~= active.drop_last().update(id, Some(d)));
        }
    } else {
        assert(active.push(Some(d)).drop_last() =~= active);
    }
}

/// Freeing a slot makes one directory less active.
pub proof fn lemma_active_count_freed(active: Seq<Option<DirModel>>, id: int)
    requires
        0 <= id < active.len(),
        active[id] is Some,
    ensures
        active_count(active.update(id, None)) + 1 == active_count(active),
    decreases active.len(),
{
    let next = active.update(id, None);
    if id == active.len() - 1 {
        assert(next.drop_last() =~= active.drop_last());
    } else {
        lemma_active_count_freed(active.drop_last(), id);
        assert(next.drop_last() =~= active.drop_last().update(id, None));
    }
}

/// Setting the mark of one job changes the number of marked jobs by one,
/// or not at all.
pub proof fn lemma_scanning_count_set(scanning: Seq<bool>, id: int, mark: bool)
    requires
        0 <= id < scanning.len(),
    ensures
        scanning_count(scanning.update(id, mark)) + (if scanning[id] {
            1nat
        } else {
            0nat
        }) == scanning_count(scanning) + (if mark {
            1nat
        } else {
            0nat
        }),
    decreases scanning.len(),
{
    let next = scanning.update(id, mark);
    if id == scanning.len() - 1 {
        assert(next.drop_last() =~= scanning.drop_last());
    } else {
        lemma_scanning_count_set(scanning.drop_last(), id, mark);
        assert(next.drop_last() =~= scanning.drop_last().update(id, mark));
    }
}

/// Each directory and each file that sifting lets through uses up one real
/// path of the universe.
pub proof fn lemma_sift_uses_up(
    m: FilterModel,
    dir: DirModel,
    entries: Seq<EntryModel>,
    seen: Set<Seq<char>>,
    universe: Set<Seq<char>>,
)
    requires
        universe.finite(),
        forall|i: int| 0 <= i < entries.len() ==> universe.contains((#[trigger] entries[i]).real_path),
    ensures
        ({
            let s = sift(m, dir, entries, seen);
            universe.difference(s.seen).len() + s.dirs.len() + s.files.len() == universe.difference(
                seen,
            ).len()
        }),
    decreases entries.len(),
{
    broadcast use vstd::set::group_set_axioms;

    if entries.len() > 0 {
        let e = entries.last();
        let acc = sift(m, dir, entries.drop_last(), seen);
        let s = sift(m, dir, entries, seen);
        assert forall|i: int| 0 <= i < entries.drop_last().len() implies universe.contains(
            (#[trigger] entries.drop_last()[i]).real_path,
        ) by {
            assert(entries.drop_last()[i] == entries[i]);
        }
        lemma_sift_uses_up(m, dir, entries.drop_last(), seen, universe);
        if s != acc {
            assert(universe.contains(entries[entries.len() - 1].real_path));
            assert(universe.difference(s.seen) =~= universe.difference(acc.seen).remove(e.real_path));
        }
    }
}

/// Handing out a directory makes the measure smaller.
pub proof fn lemma_handing_out_decreases(w: WalkModel, id: int, universe: Set<Seq<char>>)
    requires
        w.pending.len() > 0,
        0 <= id <= w.active.len(),
        !is_active(w, id),
    ensures
        walk_measure(after_handing_out(w, id), universe) < walk_measure(w, universe),
{
    lemma_active_count_filled(w.active, id, w.pending[0]);
    if id >= w.active.len() {
        assert(w.scanning.push(false).drop_last() =~= w.scanning);
    }
}

/// Taking a listing makes the measure smaller, whatever the listing holds,
/// as long as the real paths it names belong to the tree.
pub proof fn lemma_listing_decreases(
    w: WalkModel,
    id: int,
    entries: Seq<EntryModel>,
    ignore_lines: Option<Seq<Seq<char>>>,
    gitignore_lines: Option<Seq<Seq<char>>>,
    universe: Set<Seq<char>>,
)
    requires
        walk_ok(w),
        is_active(w, id),
        universe.finite(),
        forall|i: int| 0 <= i < entries.len() ==> universe.contains((#[trigger] entries[i]).real_path),
    ensures
        walk_measure(after_listing(w, id, entries, ignore_lines, gitignore_lines).0, universe)
            < walk_measure(w, universe),
{
    let d = scoped_dir(w.filter, w.active[id]->0, ignore_lines, gitignore_lines);
    lemma_sift_uses_up(w.filter, d, entries, w.seen, universe);
    lemma_active_count_freed(w.active, id);
    lemma_scanning_count_set(w.scanning, id, true);
}

/// Giving up a directory makes the measure smaller.
pub proof fn lemma_skipping_decreases(w: WalkModel, id: int, universe: Set<Seq<char>>)
    requires
        is_active(w, id),
    ensures
        walk_measure(after_skipping(w, id), universe) < walk_measure(w, universe),
{
    lemma_active_count_freed(w.active, id);
}

/// Reporting a job done makes the measure smaller.
pub proof fn lemma_finishing_decreases(w: WalkModel, id: int, universe: Set<Seq<char>>)
    requires
        is_scanning(w, id),
    ensures
        walk_measure(after_finishing(w, id), universe) < walk_measure(w, universe),
{
    lemma_scanning_count_set(w.scanning, id, false);
}

} // verus!
