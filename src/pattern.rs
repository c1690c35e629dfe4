//! Shell-style path patterns, matched by the `glob` crate.

use vstd::prelude::*;

verus! {

#[verifier::external_type_specification]
#[verifier::external_body]
pub struct ExGlobPattern(glob::Pattern);

#[verifier::external_type_specification]
#[verifier::external_body]
pub struct ExGlobPatternError(glob::PatternError);

/// Whether `glob` accepts `pattern` as a pattern.
pub uninterp spec fn glob_valid(pattern: Seq<char>) -> bool;

/// Whether `glob` matches `path` against `pattern`, with its default options.
pub uninterp spec fn glob_matches(pattern: Seq<char>, path: Seq<char>) -> bool;

/// Relies on `glob::Pattern::new`: it compiles the text, or reports why it
/// cannot; which of the two depends on the text alone.
#[verifier::external_body]
fn compile_glob(text: &str) -> (r: Result<glob::Pattern, glob::PatternError>)
    ensures
        r is Ok <==> glob_valid(text@),
{
    glob::Pattern::new(text)
}

/// A compiled pattern together with the text it was compiled from.
pub struct PathPattern {
    text: String,
    compiled: glob::Pattern,
}

/// Relies on `glob::Pattern::matches`; `p.compiled` was compiled from
/// `p.text` by [`PathPattern::new`], the only way to build a `PathPattern`.
#[verifier::external_body]
fn glob_match(p: &PathPattern, path: &str) -> (r: bool)
    ensures
        r == glob_matches(p.text@, path@),
{
    p.compiled.matches(path)
}

/// Why a pattern was refused.
pub struct PathPatternError {
    pub pattern: String,
}

impl PathPattern {
    /// The text this pattern was compiled from.
    pub closed spec fn view(&self) -> Seq<char> {
        self.text@
    }

    /// Compiles `text`; fails exactly on the texts that `glob` refuses.
    pub fn new(text: &str) -> (r: Result<PathPattern, PathPatternError>)
        ensures
            r is Ok <==> glob_valid(text@),
            r matches Ok(p) ==> p.view() == text@,
            r matches Err(e) ==> e.pattern@ == text@,
    {
        match compile_glob(text) {
            Ok(compiled) => Ok(PathPattern { text: text.to_string(), compiled }),
            Err(_) => Err(PathPatternError { pattern: text.to_string() }),
        }
    }

    /// Whether `path` matches.
    pub fn matches(&self, path: &str) -> (r: bool)
        ensures
            r == glob_matches(self.view(), path@),
    {
        glob_match(self, path)
    }

    /// The text this pattern was compiled from.
    pub fn as_str(&self) -> (r: &str)
        ensures
            r@ == self.view(),
    {
        self.text.as_str()
    }
}

} // verus!
