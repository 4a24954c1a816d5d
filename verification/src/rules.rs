//! Sets of glob rules in the syntax of ignore files. Matching a path against
//! such a set is the work of an outside crate; this module names what it
//! holds and returns, and builds sets from lines of text.

use vstd::prelude::*;
use ignore::gitignore::{Gitignore, GitignoreBuilder};

verus! {

/// `ignore::gitignore::Gitignore`, a matcher for the rules of one
/// directory. Nothing is known of what is inside.
#[verifier::external_type_specification]
#[verifier::external_body]
pub struct ExGitignore(ignore::gitignore::Gitignore);

/// `ignore::gitignore::GitignoreBuilder`, which gathers rule lines before
/// a matcher is built from them. Nothing is known of what is inside.
#[verifier::external_type_specification]
#[verifier::external_body]
pub struct ExGitignoreBuilder(ignore::gitignore::GitignoreBuilder);

/// `ignore::Error`, why a matcher could not be built. The library only
/// tells that there is one.
#[verifier::external_type_specification]
#[verifier::external_body]
pub struct ExIgnoreError(ignore::Error);

/// What a rule set says of a path.
#[derive(Clone, Copy, Debug, PartialEq, Eq, Structural)]
pub enum Verdict {
    /// No rule of the set applies to the path.
    Unmatched,
    /// The last rule that applies selects the path.
    Selected,
    /// The last rule that applies is a negated one: it exempts the path.
    Exempted,
}

/// Whether `GitignoreBuilder::add_line` accepts the line.
pub uninterp spec fn rule_line_valid(line: Seq<char>) -> bool;

/// What `GitignoreBuilder::add_line` stores of a line that it accepts: the
/// text of the glob as the builder keeps it, which is the line without the
/// blanks at its end; or nothing, for a comment line or a blank line.
pub uninterp spec fn stored_line(line: Seq<char>) -> Option<Seq<char>>;

/// What `GitignoreBuilder::new` keeps of a root: the text without a leading
/// `./`.
pub open spec fn stored_root(root: Seq<char>) -> Seq<char> {
    if root.len() >= 2 && root[0] == '.' && root[1] == '/' {
        root.skip(2)
    } else {
        root
    }
}

/// The root that a builder holds.
pub uninterp spec fn builder_root(b: GitignoreBuilder) -> Seq<char>;

/// The texts of the globs that a builder holds, in order, each as the
/// builder keeps it.
pub uninterp spec fn builder_lines(b: GitignoreBuilder) -> Seq<Seq<char>>;

/// Whether `GitignoreBuilder::build` succeeds on a builder that holds this
/// root and these globs.
pub uninterp spec fn rules_buildable(root: Seq<char>, lines: Seq<Seq<char>>) -> bool;

/// The root that a matcher holds: the directory its rules are relative to.
pub uninterp spec fn matcher_root(g: Gitignore) -> Seq<char>;

/// The texts of the globs that a matcher holds, in order: what
/// `Glob::original` reads of each.
pub uninterp spec fn matcher_lines(g: Gitignore) -> Seq<Seq<char>>;

/// What `Gitignore::matched` says of `path`, for a matcher that holds the
/// root `root` and the globs `lines`.
pub uninterp spec fn rules_verdict(
    root: Seq<char>,
    lines: Seq<Seq<char>>,
    path: Seq<char>,
    is_dir: bool,
) -> Verdict;

/// `GitignoreBuilder::new`: a builder without globs that holds `root`, less
/// a leading `./`.
#[verifier::external_body]
fn builder_new(root: &str) -> (r: GitignoreBuilder)
    ensures
        builder_root(r) == stored_root(root@),
        builder_lines(r) == Seq::<Seq<char>>::empty(),
{
    GitignoreBuilder::new(root)
}

/// `GitignoreBuilder::add_line`: adds one line of an ignore file. Whether the
/// line is accepted, and what is stored of it, depends on its text alone. A
/// line that is refused, a comment line and a blank line leave the builder
/// as it was; any other line adds its glob at the end.
#[verifier::external_body]
fn builder_add_line(b: &mut GitignoreBuilder, line: &str) -> (ok: bool)
    ensures
        ok == rule_line_valid(line@),
        builder_root(*final(b)) == builder_root(*old(b)),
        builder_lines(*final(b)) == match stored_line(line@) {
            Some(glob) if ok => builder_lines(*old(b)).push(glob),
            _ => builder_lines(*old(b)),
        },
{
    b.add_line(None, line).is_ok()
}

/// `GitignoreBuilder::build`: the matcher of the globs added so far. It
/// holds the builder's root and globs. Whether building succeeds depends on
/// these alone.
#[verifier::external_body]
fn builder_build(b: &GitignoreBuilder) -> (r: Result<Gitignore, ignore::Error>)
    ensures
        r.is_ok() == rules_buildable(builder_root(*b), builder_lines(*b)),
        r matches Ok(g) ==> matcher_root(g) == builder_root(*b) && matcher_lines(g)
            == builder_lines(*b),
{
    b.build()
}

/// `Gitignore::matched`: what the matcher's rules say of `path`. The answer
/// depends on the matcher's root and globs, the path and `is_dir` alone.
#[verifier::external_body]
fn matcher_matched(g: &Gitignore, path: &str, is_dir: bool) -> (r: Verdict)
    ensures
        r == rules_verdict(matcher_root(*g), matcher_lines(*g), path@, is_dir),
{
    match g.matched(path, is_dir) {
        ignore::Match::None => Verdict::Unmatched,
        ignore::Match::Ignore(_) => Verdict::Selected,
        ignore::Match::Whitelist(_) => Verdict::Exempted,
    }
}

/// The texts of a sequence of strings.
pub open spec fn texts(v: Seq<String>) -> Seq<Seq<char>> {
    Seq::new(v.len(), |i: int| v[i]@)
}

/// The globs that a builder holds after the lines `lines` were added to it
/// one after the other: of each line that is accepted and is no comment
/// and not blank, the text that is stored of it.
pub open spec fn kept_lines(lines: Seq<Seq<char>>) -> Seq<Seq<char>>
    decreases lines.len(),
{
    if lines.len() == 0 {
        Seq::empty()
    } else {
        match stored_line(lines.last()) {
            Some(glob) if rule_line_valid(lines.last()) => kept_lines(lines.drop_last()).push(glob),
            _ => kept_lines(lines.drop_last()),
        }
    }
}

/// Whether every line is a valid rule.
pub open spec fn all_valid(lines: Seq<Seq<char>>) -> bool {
    forall|i: int| 0 <= i < lines.len() ==> rule_line_valid(#[trigger] lines[i])
}

/// A compiled set of rules, relative to a directory.
pub struct RuleSet {
    matcher: Gitignore,
}

impl RuleSet {
    /// The directory that the rules are relative to, as the set holds it.
    pub closed spec fn root(&self) -> Seq<char> {
        matcher_root(self.matcher)
    }

    /// The globs of the set, in order, each as the set holds it.
    pub closed spec fn lines(&self) -> Seq<Seq<char>> {
        matcher_lines(self.matcher)
    }

    /// What the set says of a path.
    pub open spec fn verdict(&self, path: Seq<char>, is_dir: bool) -> Verdict {
        rules_verdict(self.root(), self.lines(), path, is_dir)
    }

    /// Builds the set of the valid lines among `lines`, relative to `root`.
    /// With `strict`, one invalid line makes the whole set fail.
    pub fn compile(root: &str, lines: &Vec<String>, strict: bool) -> (r: Option<RuleSet>)
        ensures
            r.is_some() == ((strict ==> all_valid(texts(lines@))) && rules_buildable(
                stored_root(root@),
                kept_lines(texts(lines@)),
            )),
            r matches Some(s) ==> s.root() == stored_root(root@) && s.lines() == kept_lines(
                texts(lines@),
            ),
    {
        let mut builder = builder_new(root);
        let mut i: usize = 0;
        while i < lines.len()
            invariant
                i <= lines@.len(),
                builder_root(builder) == stored_root(root@),
                builder_lines(builder) == kept_lines(texts(lines@).take(i as int)),
                strict ==> all_valid(texts(lines@).take(i as int)),
            decreases lines@.len() - i,
        {
            let ok = builder_add_line(&mut builder, lines[i].as_str());
            proof {
                let all = texts(lines@);
                let next = all.take(i + 1);
                assert(next.drop_last() =~= all.take(i as int));
                assert(next.last() == lines@[i as int]@);
            }
            if strict && !ok {
                proof {
                    assert(texts(lines@)[i as int] == lines@[i as int]@);
                }
                return None;
            }
            proof {
                let all = texts(lines@);
                assert forall|k: int| 0 <= k < all.take(i + 1).len() && strict implies rule_line_valid(
                    #[trigger] all.take(i + 1)[k],
                ) by {
                    if k < i {
                        assert(all.take(i as int)[k] == all.take(i + 1)[k]);
                    }
                }
            }
            i = i + 1;
        }
        proof {
            let all = texts(lines@);
            assert(all.take(i as int) =~= all);
        }
        match builder_build(&builder) {
            Ok(matcher) => Some(RuleSet { matcher }),
            Err(_) => None,
        }
    }

    /// What the set says of `path`, which names a directory if `is_dir`.
    pub fn matched(&self, path: &str, is_dir: bool) -> (r: Verdict)
        ensures
            r == self.verdict(path@, is_dir),
    {
        matcher_matched(&self.matcher, path, is_dir)
    }
}

} // verus!
