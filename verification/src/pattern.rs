//! Compiled patterns. The regular expression engine is an outside crate; this
//! module states what the library relies on and nothing more.

use vstd::prelude::*;
use vstd::string::StringExecFns;
use grep::regex::RegexMatcher;
use grep::matcher::Matcher;
use regex::Regex;

verus! {

/// `grep::regex::RegexMatcher`, a compiled line matcher. Nothing is known
/// of what is inside; the library only carries it from where it is made
/// to where it is asked.
#[verifier::external_type_specification]
#[verifier::external_body]
pub struct ExRegexMatcher(grep::regex::RegexMatcher);

/// Whether `RegexMatcher::new_line_matcher` accepts the pattern text.
pub uninterp spec fn line_pattern_valid(pattern: Seq<char>) -> bool;

/// What the error that `RegexMatcher::new_line_matcher` gives for `pattern`
/// reads when it is displayed: the engine's explanation.
pub uninterp spec fn line_pattern_error(pattern: Seq<char>) -> Seq<char>;

/// What `Matcher::find` of the matcher `m` answers for `line`: the byte
/// range of the first match, or nothing.
pub uninterp spec fn matcher_span(m: RegexMatcher, line: Seq<u8>) -> Option<(nat, nat)>;

/// Where the line matcher that `RegexMatcher::new_line_matcher` makes of
/// `pattern` finds its first match in `line`: the byte range of the match,
/// or nothing.
pub uninterp spec fn line_first_span(pattern: Seq<char>, line: Seq<u8>) -> Option<(nat, nat)>;

/// Whether the line matcher made from `pattern` finds a match in `line`.
pub open spec fn line_is_match(pattern: Seq<char>, line: Seq<u8>) -> bool {
    line_first_span(pattern, line) is Some
}

/// `RegexMatcher::new_line_matcher`: compiles `pattern` for line-oriented
/// search. Whether it succeeds depends on the text alone. The matcher that
/// comes back answers every line as the matcher of this pattern does; an
/// error comes back as the text it displays.
#[verifier::external_body]
fn new_line_matcher(pattern: &str) -> (r: Result<RegexMatcher, String>)
    ensures
        r.is_ok() == line_pattern_valid(pattern@),
        r matches Ok(m) ==> forall|line: Seq<u8>|
            #[trigger] matcher_span(m, line) == line_first_span(pattern@, line),
        r matches Err(why) ==> why@ == line_pattern_error(pattern@),
{
    RegexMatcher::new_line_matcher(pattern).map_err(|e| e.to_string())
}

/// `Matcher::find` of a `RegexMatcher`: the byte range of the first match in
/// `line`, which lies within the line, or nothing where there is no match.
/// The answer depends on the matcher and the bytes alone. The method's
/// error type is the one of matchers that never fail.
#[verifier::external_body]
fn matcher_find(m: &RegexMatcher, line: &[u8]) -> (r: Option<(usize, usize)>)
    ensures
        r matches Some(span) ==> span.0 <= span.1 <= line@.len(),
        match r {
            Some(span) => matcher_span(*m, line@) == Some((span.0 as nat, span.1 as nat)),
            None => matcher_span(*m, line@) is None,
        },
{
    match m.find(line) {
        Ok(Some(found)) => Some((found.start(), found.end())),
        Ok(None) => None,
        Err(_) => None,
    }
}

/// The expression that is compiled for `pattern`: the pattern itself, or,
/// to match without regard to case, the pattern behind the flag `(?i)`.
pub open spec fn effective_pattern(pattern: Seq<char>, fold_case: bool) -> Seq<char> {
    if fold_case {
        "(?i)"@ + pattern
    } else {
        pattern
    }
}

/// A pattern compiled for content search.
pub struct LinePattern {
    matcher: RegexMatcher,
    /// The pattern text that the matcher was compiled from.
    text: Ghost<Seq<char>>,
}

impl LinePattern {
    /// The matcher answers as the matcher of the pattern text does.
    #[verifier::type_invariant]
    spec fn inv(self) -> bool {
        forall|line: Seq<u8>| #[trigger] matcher_span(self.matcher, line) == line_first_span(self.text@, line)
    }

    /// The pattern text that decides what this pattern matches.
    pub closed spec fn source(&self) -> Seq<char> {
        self.text@
    }

    /// Compiles `pattern`, to match without regard to case if `fold_case`.
    /// Where the expression is not valid, the engine's explanation comes
    /// back in its place.
    pub fn try_compile(pattern: &str, fold_case: bool) -> (r: Result<LinePattern, String>)
        ensures
            r.is_ok() == line_pattern_valid(effective_pattern(pattern@, fold_case)),
            r matches Ok(p) ==> p.source() == effective_pattern(pattern@, fold_case),
            r matches Err(why) ==> why@ == line_pattern_error(effective_pattern(pattern@, fold_case)),
    {
        let compiled = if fold_case {
            let mut text = String::from_str("(?i)");
            text.append(pattern);
            new_line_matcher(text.as_str())
        } else {
            new_line_matcher(pattern)
        };
        match compiled {
            Ok(matcher) => Ok(
                LinePattern { matcher, text: Ghost(effective_pattern(pattern@, fold_case)) },
            ),
            Err(why) => Err(why),
        }
    }

    /// Compiles `pattern`, to match without regard to case if `fold_case`;
    /// `None` when the expression is not valid.
    pub fn compile_with(pattern: &str, fold_case: bool) -> (r: Option<LinePattern>)
        ensures
            r.is_some() == line_pattern_valid(effective_pattern(pattern@, fold_case)),
            r matches Some(p) ==> p.source() == effective_pattern(pattern@, fold_case),
    {
        match LinePattern::try_compile(pattern, fold_case) {
            Ok(p) => Some(p),
            Err(_) => None,
        }
    }

    /// Compiles `pattern`; `None` when it is not a valid expression.
    pub fn compile(pattern: &str) -> (r: Option<LinePattern>)
        ensures
            r.is_some() == line_pattern_valid(pattern@),
            r matches Some(p) ==> p.source() == pattern@,
    {
        LinePattern::compile_with(pattern, false)
    }

    /// Where the pattern first matches in `line`: the byte range of the
    /// match within the line, or nothing where the line does not match.
    pub fn first_span(&self, line: &[u8]) -> (r: Option<(usize, usize)>)
        ensures
            r matches Some(span) ==> span.0 <= span.1 <= line@.len(),
            match r {
                Some(span) => line_first_span(self.source(), line@) == Some(
                    (span.0 as nat, span.1 as nat),
                ),
                None => line_first_span(self.source(), line@) is None,
            },
    {
        proof {
            use_type_invariant(self);
            assert(matcher_span(self.matcher, line@) == line_first_span(self.text@, line@));
        }
        matcher_find(&self.matcher, line)
    }

    /// Whether the pattern matches somewhere in `line`.
    pub fn matches_line(&self, line: &[u8]) -> (r: bool)
        ensures
            r == line_is_match(self.source(), line@),
    {
        self.first_span(line).is_some()
    }
}

/// `regex::Regex`, a compiled regular expression. Nothing is known of
/// what is inside.
#[verifier::external_type_specification]
#[verifier::external_body]
pub struct ExRegex(regex::Regex);

/// Whether `Regex::new` accepts the pattern text.
pub uninterp spec fn name_pattern_valid(pattern: Seq<char>) -> bool;

/// The pattern text that a regex holds: what `Regex::as_str` reads.
pub uninterp spec fn regex_source(re: Regex) -> Seq<char>;

/// Whether the regex made from `pattern` finds a match in `text`.
pub uninterp spec fn text_is_match(pattern: Seq<char>, text: Seq<char>) -> bool;

/// What the error that `Regex::new` gives for `pattern` reads when it is
/// displayed: the engine's explanation.
pub uninterp spec fn name_pattern_error(pattern: Seq<char>) -> Seq<char>;

/// `Regex::new`: compiles `pattern`. Whether it succeeds depends on the text
/// alone. The regex that comes back holds the text; an error comes back as
/// the text it displays.
#[verifier::external_body]
fn regex_new(pattern: &str) -> (r: Result<Regex, String>)
    ensures
        r.is_ok() == name_pattern_valid(pattern@),
        r matches Ok(re) ==> regex_source(re) == pattern@,
        r matches Err(why) ==> why@ == name_pattern_error(pattern@),
{
    Regex::new(pattern).map_err(|e| e.to_string())
}

/// `Regex::is_match`: whether there is a match anywhere in `text`. The result
/// depends on the pattern text and on `text` alone.
#[verifier::external_body]
fn regex_is_match(re: &Regex, text: &str) -> (r: bool)
    ensures
        r == text_is_match(regex_source(*re), text@),
{
    re.is_match(text)
}

/// A pattern compiled for file name search.
pub struct NamePattern {
    regex: Regex,
}

impl NamePattern {
    /// The pattern text that decides what this pattern matches.
    pub closed spec fn source(&self) -> Seq<char> {
        regex_source(self.regex)
    }

    /// Compiles `pattern`. Where the expression is not valid, the engine's
    /// explanation comes back in its place.
    pub fn try_compile(pattern: &str) -> (r: Result<NamePattern, String>)
        ensures
            r.is_ok() == name_pattern_valid(pattern@),
            r matches Ok(p) ==> p.source() == pattern@,
            r matches Err(why) ==> why@ == name_pattern_error(pattern@),
    {
        match regex_new(pattern) {
            Ok(regex) => Ok(NamePattern { regex }),
            Err(why) => Err(why),
        }
    }

    /// Compiles `pattern`; `None` when it is not a valid expression.
    pub fn compile(pattern: &str) -> (r: Option<NamePattern>)
        ensures
            r.is_some() == name_pattern_valid(pattern@),
            r matches Some(p) ==> p.source() == pattern@,
    {
        match NamePattern::try_compile(pattern) {
            Ok(p) => Some(p),
            Err(_) => None,
        }
    }

    /// Whether the pattern matches somewhere in `name`, the last component
    /// of a path.
    pub fn matches_name(&self, name: &str) -> (r: bool)
        ensures
            r == text_is_match(self.source(), name@),
    {
        regex_is_match(&self.regex, name)
    }
}

} // verus!
