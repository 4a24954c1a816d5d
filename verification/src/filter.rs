//! The path filter: which entries of a directory take part in a search.
//!
//! An entry takes part if it passes every rule: the hidden-name rule, the
//! rules of `.ignore` files, the rules of `.gitignore` files, the depth
//! limit, the include globs and the exclude globs. No rule can bring back
//! what another has shut out, so an exclude glob wins over an include glob.

use vstd::prelude::*;
use vstd::string::StrSliceExecFns;
use crate::error::SearchError;
use crate::options::{depth_limit, depth_limit_of, flag_or, flag_value, SearchOptions};
use crate::rules::{
    all_valid, kept_lines, rules_buildable, rules_verdict, stored_root, texts, RuleSet, Verdict,
};

verus! {

/// The directory that include and exclude globs are relative to: the root
/// of the search. Paths handed to the filter are relative to it too.
pub open spec fn glob_root() -> Seq<char> {
    "."@
}

/// Whether an entry's name marks it as hidden.
pub open spec fn is_hidden_name(name: Seq<char>) -> bool {
    name.len() > 0 && name[0] == '.'
}

/// Whether an entry's name marks it as hidden.
pub fn hidden_name(name: &str) -> (r: bool)
    ensures
        r == is_hidden_name(name@),
{
    if name.is_empty() {
        false
    } else {
        name.get_char(0) == '.'
    }
}

/// The settings of a filter.
pub ghost struct FilterModel {
    pub include_hidden: bool,
    pub use_ignore_files: bool,
    pub use_gitignore: bool,
    pub depth_limit: Option<nat>,
    pub includes: Seq<Seq<char>>,
    pub excludes: Seq<Seq<char>>,
}

/// The globs of an optional list.
pub open spec fn globs_of(list: Option<Vec<String>>) -> Seq<Seq<char>> {
    match list {
        Some(v) => texts(v@),
        None => Seq::empty(),
    }
}

/// The settings that `options` ask for.
pub open spec fn filter_model(options: SearchOptions) -> FilterModel {
    FilterModel {
        include_hidden: flag_or(options.include_hidden, false),
        use_ignore_files: !flag_or(options.disable_ignore, false),
        use_gitignore: !flag_or(options.disable_gitignore, false),
        depth_limit: depth_limit_of(options.max_depth),
        includes: globs_of(options.include_patterns),
        excludes: globs_of(options.exclude_patterns),
    }
}

/// The settings of a file name search. Such a search takes no options, so
/// every rule stands at its default: hidden entries are shut out, `.ignore`
/// and `.gitignore` files are read, and there is no depth limit and no glob.
pub open spec fn name_search_model() -> FilterModel {
    FilterModel {
        include_hidden: false,
        use_ignore_files: true,
        use_gitignore: true,
        depth_limit: None,
        includes: Seq::empty(),
        excludes: Seq::empty(),
    }
}

/// Whether a list of globs compiles: an empty list always does.
pub open spec fn globs_compile(globs: Seq<Seq<char>>) -> bool {
    globs.len() == 0 || (all_valid(globs) && rules_buildable(
        stored_root(glob_root()),
        kept_lines(globs),
    ))
}

/// What the globs `globs`, each a line in the syntax of ignore files, say of
/// the path `path` from the root.
pub open spec fn glob_verdict(globs: Seq<Seq<char>>, path: Seq<char>, is_dir: bool) -> Verdict {
    rules_verdict(stored_root(glob_root()), kept_lines(globs), path, is_dir)
}

/// The decision on one entry, from what each rule found.
///
/// `hidden`: the entry's name is a hidden one. `ignore_file`, `gitignore`:
/// what the rules of the `.ignore` and `.gitignore` files say. `depth`: how
/// many directories lie between the root and the entry. `wanted`,
/// `barred`: what the include and the exclude globs say; each counts only
/// where there are such globs. Include globs choose among files only, so
/// that a directory can still be entered.
pub open spec fn decide(
    m: FilterModel,
    hidden: bool,
    ignore_file: Verdict,
    gitignore: Verdict,
    depth: nat,
    is_dir: bool,
    wanted: Verdict,
    barred: Verdict,
) -> bool {
    &&& m.include_hidden || !hidden
    &&& m.use_ignore_files ==> ignore_file != Verdict::Selected
    &&& m.use_gitignore ==> gitignore != Verdict::Selected
    &&& m.depth_limit matches Some(d) ==> depth <= d
    &&& m.includes.len() > 0 && !is_dir ==> wanted == Verdict::Selected
    &&& m.excludes.len() > 0 ==> barred != Verdict::Selected
}

/// Whether the entry `name`, at `path` from the root, takes part, given what
/// the ignore files say of it.
pub open spec fn admits(
    m: FilterModel,
    name: Seq<char>,
    path: Seq<char>,
    is_dir: bool,
    depth: nat,
    ignore_file: Verdict,
    gitignore: Verdict,
) -> bool {
    decide(
        m,
        is_hidden_name(name),
        ignore_file,
        gitignore,
        depth,
        is_dir,
        glob_verdict(m.includes, path, is_dir),
        glob_verdict(m.excludes, path, is_dir),
    )
}

/// An exclude glob wins: an entry that the exclude globs select takes no
/// part, whatever the include globs say of it.
pub proof fn lemma_exclude_wins(
    m: FilterModel,
    name: Seq<char>,
    path: Seq<char>,
    is_dir: bool,
    depth: nat,
    ignore_file: Verdict,
    gitignore: Verdict,
)
    requires
        m.excludes.len() > 0,
        glob_verdict(m.excludes, path, is_dir) == Verdict::Selected,
    ensures
        !admits(m, name, path, is_dir, depth, ignore_file, gitignore),
{
}

/// Where there are include globs, a file that takes part is selected by
/// them and not selected by the exclude globs.
pub proof fn lemma_include_then_exclude(
    m: FilterModel,
    name: Seq<char>,
    path: Seq<char>,
    depth: nat,
    ignore_file: Verdict,
    gitignore: Verdict,
)
    requires
        m.includes.len() > 0,
        admits(m, name, path, false, depth, ignore_file, gitignore),
    ensures
        glob_verdict(m.includes, path, false) == Verdict::Selected,
        m.excludes.len() > 0 ==> glob_verdict(m.excludes, path, false)
            != Verdict::Selected,
{
}

/// Without `include_hidden`, no entry with a hidden name takes part.
pub proof fn lemma_hidden_shut_out(
    m: FilterModel,
    name: Seq<char>,
    path: Seq<char>,
    is_dir: bool,
    depth: nat,
    ignore_file: Verdict,
    gitignore: Verdict,
)
    requires
        !m.include_hidden,
        is_hidden_name(name),
    ensures
        !admits(m, name, path, is_dir, depth, ignore_file, gitignore),
{
}

/// No entry beyond the depth limit takes part.
pub proof fn lemma_depth_limit_holds(
    m: FilterModel,
    name: Seq<char>,
    path: Seq<char>,
    is_dir: bool,
    depth: nat,
    ignore_file: Verdict,
    gitignore: Verdict,
)
    requires
        admits(m, name, path, is_dir, depth, ignore_file, gitignore),
        m.depth_limit is Some,
    ensures
        depth <= m.depth_limit->0,
{
}

/// The filter of one search, built once from its options.
pub struct PathFilter {
    include_hidden: bool,
    use_ignore_files: bool,
    use_gitignore: bool,
    depth_limit: Option<usize>,
    includes: Option<RuleSet>,
    excludes: Option<RuleSet>,
    /// The include globs as they were handed in.
    include_globs: Ghost<Seq<Seq<char>>>,
    /// The exclude globs as they were handed in.
    exclude_globs: Ghost<Seq<Seq<char>>>,
}

impl View for PathFilter {
    type V = FilterModel;

    closed spec fn view(&self) -> FilterModel {
        FilterModel {
            include_hidden: self.include_hidden,
            use_ignore_files: self.use_ignore_files,
            use_gitignore: self.use_gitignore,
            depth_limit: match self.depth_limit {
                Some(d) => Some(d as nat),
                None => None,
            },
            includes: self.include_globs@,
            excludes: self.exclude_globs@,
        }
    }
}

/// Compiles a list of globs; an empty list gives no rule set.
fn compile_globs(list: &Option<Vec<String>>) -> (r: Result<Option<RuleSet>, SearchError>)
    ensures
        r is Ok == globs_compile(globs_of(*list)),
        r matches Err(e) ==> e == SearchError::InvalidPattern,
        r matches Ok(None) ==> globs_of(*list).len() == 0,
        r matches Ok(Some(s)) ==> s.root() == stored_root(glob_root()) && s.lines() == kept_lines(
            globs_of(*list),
        ) && globs_of(*list).len() > 0,
{
    match list {
        Some(v) => {
            if v.len() == 0 {
                Ok(None)
            } else {
                match RuleSet::compile(".", v, true) {
                    Some(s) => Ok(Some(s)),
                    None => Err(SearchError::InvalidPattern),
                }
            }
        },
        None => Ok(None),
    }
}

impl PathFilter {
    #[verifier::type_invariant]
    spec fn inv(self) -> bool {
        &&& match self.includes {
            Some(s) => s.root() == stored_root(glob_root()) && s.lines() == kept_lines(
                self.include_globs@,
            ) && self.include_globs@.len() > 0,
            None => self.include_globs@.len() == 0,
        }
        &&& match self.excludes {
            Some(s) => s.root() == stored_root(glob_root()) && s.lines() == kept_lines(
                self.exclude_globs@,
            ) && self.exclude_globs@.len() > 0,
            None => self.exclude_globs@.len() == 0,
        }
    }

    /// The filter that `options` ask for. Fails with `InvalidPattern` if
    /// and only if the include or the exclude globs do not compile.
    pub fn new(options: &SearchOptions) -> (r: Result<PathFilter, SearchError>)
        ensures
            r is Ok == (globs_compile(globs_of(options.include_patterns)) && globs_compile(
                globs_of(options.exclude_patterns),
            )),
            r matches Err(e) ==> e == SearchError::InvalidPattern,
            r matches Ok(f) ==> f@ == filter_model(*options),
    {
        let includes = match compile_globs(&options.include_patterns) {
            Ok(s) => s,
            Err(e) => {
                return Err(e);
            },
        };
        let excludes = match compile_globs(&options.exclude_patterns) {
            Ok(s) => s,
            Err(e) => {
                return Err(e);
            },
        };
        proof {
            if includes is None {
                assert(globs_of(options.include_patterns) =~= Seq::<Seq<char>>::empty());
            }
            if excludes is None {
                assert(globs_of(options.exclude_patterns) =~= Seq::<Seq<char>>::empty());
            }
        }
        Ok(
            PathFilter {
                include_hidden: flag_value(options.include_hidden, false),
                use_ignore_files: !flag_value(options.disable_ignore, false),
                use_gitignore: !flag_value(options.disable_gitignore, false),
                depth_limit: depth_limit(options.max_depth),
                includes,
                excludes,
                include_globs: Ghost(globs_of(options.include_patterns)),
                exclude_globs: Ghost(globs_of(options.exclude_patterns)),
            },
        )
    }

    /// The filter of a file name search: every rule at its default.
    pub fn for_file_names() -> (r: PathFilter)
        ensures
            r@ == name_search_model(),
    {
        PathFilter {
            include_hidden: false,
            use_ignore_files: true,
            use_gitignore: true,
            depth_limit: None,
            includes: None,
            excludes: None,
            include_globs: Ghost(Seq::empty()),
            exclude_globs: Ghost(Seq::empty()),
        }
    }

    /// Whether `.ignore` files are to be read.
    pub fn uses_ignore_files(&self) -> (r: bool)
        ensures
            r == self@.use_ignore_files,
    {
        self.use_ignore_files
    }

    /// Whether `.gitignore` files are to be read.
    pub fn uses_gitignore(&self) -> (r: bool)
        ensures
            r == self@.use_gitignore,
    {
        self.use_gitignore
    }

    /// The depth limit, if there is one.
    pub fn depth_limit(&self) -> (r: Option<usize>)
        ensures
            r is Some == self@.depth_limit is Some,
            r matches Some(d) ==> self@.depth_limit == Some(d as nat),
    {
        self.depth_limit
    }

    /// The decision on one entry, from what each rule found.
    pub fn decide(
        &self,
        hidden: bool,
        ignore_file: Verdict,
        gitignore: Verdict,
        depth: usize,
        is_dir: bool,
        wanted: Verdict,
        barred: Verdict,
    ) -> (r: bool)
        ensures
            r == decide(self@, hidden, ignore_file, gitignore, depth as nat, is_dir, wanted, barred),
    {
        proof {
            use_type_invariant(self);
        }
        if hidden && !self.include_hidden {
            return false;
        }
        if self.use_ignore_files && ignore_file == Verdict::Selected {
            return false;
        }
        if self.use_gitignore && gitignore == Verdict::Selected {
            return false;
        }
        match self.depth_limit {
            Some(d) => {
                if depth > d {
                    return false;
                }
            },
            None => {},
        }
        if self.includes.is_some() && !is_dir && wanted != Verdict::Selected {
            return false;
        }
        if self.excludes.is_some() && barred == Verdict::Selected {
            return false;
        }
        true
    }

    /// Whether the entry `name`, at `path` from the root and `depth`
    /// directories below it, takes part. `ignore_file` and `gitignore` are
    /// what the rules of the ignore files above the entry say of it.
    pub fn eligible(
        &self,
        name: &str,
        path: &str,
        is_dir: bool,
        depth: usize,
        ignore_file: Verdict,
        gitignore: Verdict,
    ) -> (r: bool)
        ensures
            r == admits(self@, name@, path@, is_dir, depth as nat, ignore_file, gitignore),
    {
        proof {
            use_type_invariant(self);
        }
        let wanted = match &self.includes {
            Some(s) => s.matched(path, is_dir),
            None => Verdict::Unmatched,
        };
        let barred = match &self.excludes {
            Some(s) => s.matched(path, is_dir),
            None => Verdict::Unmatched,
        };
        self.decide(hidden_name(name), ignore_file, gitignore, depth, is_dir, wanted, barred)
    }
}

} // verus!
