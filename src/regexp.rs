//! Regular expressions, matched by the `regex` crate.

use vstd::prelude::*;

verus! {

#[verifier::external_type_specification]
#[verifier::external_body]
pub struct ExRegex(regex::Regex);

/// Whether `regex` accepts `pattern`.
pub uninterp spec fn regex_valid(pattern: Seq<char>) -> bool;

/// The text that the group called `group` takes in the first match of
/// `pattern` in `text`, as `regex` finds it; `None` where nothing matches
/// or the group takes no part.
pub uninterp spec fn regex_group(pattern: Seq<char>, text: Seq<char>, group: Seq<char>) -> Option<Seq<char>>;

/// `template` with the groups of the first match of `pattern` in `text`
/// put in, as `regex` expands it; `None` where nothing matches.
pub uninterp spec fn regex_expansion(pattern: Seq<char>, text: Seq<char>, template: Seq<char>) -> Option<Seq<char>>;

/// Relies on `regex::Regex::new`: it compiles the pattern or fails;
/// which of the two depends on the pattern alone.
#[verifier::external_body]
fn compile_regex(pattern: &str) -> (r: Option<regex::Regex>)
    ensures
        r is Some <==> regex_valid(pattern@),
{
    regex::Regex::new(pattern).ok()
}

/// A compiled regular expression together with its pattern.
pub struct CompiledRegex {
    pattern: String,
    compiled: regex::Regex,
}

/// Relies on `regex::Regex::captures` and `regex::Captures::name`;
/// `re.compiled` was compiled from `re.pattern` by [`CompiledRegex::new`],
/// the only way to build one.
#[verifier::external_body]
fn captured_group(re: &CompiledRegex, text: &str, group: &str) -> (r: Option<String>)
    ensures
        r matches Some(s) ==> regex_group(re.pattern@, text@, group@) == Some(s@),
        r is None <==> regex_group(re.pattern@, text@, group@) is None,
{
    re.compiled.captures(text).and_then(|caps| caps.name(group).map(|m| m.as_str().to_string()))
}

/// Relies on `regex::Regex::captures` and `regex::Captures::expand`;
/// `re.compiled` was compiled from `re.pattern` by [`CompiledRegex::new`].
#[verifier::external_body]
fn expanded(re: &CompiledRegex, text: &str, template: &str) -> (r: Option<String>)
    ensures
        r matches Some(s) ==> regex_expansion(re.pattern@, text@, template@) == Some(s@),
        r is None <==> regex_expansion(re.pattern@, text@, template@) is None,
{
    re.compiled.captures(text).map(|caps| {
        let mut out = String::new();
        caps.expand(template, &mut out);
        out
    })
}

impl CompiledRegex {
    /// The pattern this was compiled from.
    pub closed spec fn view(&self) -> Seq<char> {
        self.pattern@
    }

    /// Compiles `pattern`; fails, handing the pattern back, exactly where
    /// `regex` refuses it.
    pub fn new(pattern: &str) -> (r: Result<CompiledRegex, String>)
        ensures
            r is Ok <==> regex_valid(pattern@),
            r matches Ok(re) ==> re.view() == pattern@,
            r matches Err(p) ==> p@ == pattern@,
    {
        match compile_regex(pattern) {
            Some(compiled) => Ok(CompiledRegex { pattern: pattern.to_string(), compiled }),
            None => Err(pattern.to_string()),
        }
    }

    /// The text of the group `group` in the first match in `text`.
    pub fn group(&self, text: &str, group: &str) -> (r: Option<String>)
        ensures
            r matches Some(s) ==> regex_group(self.view(), text@, group@) == Some(s@),
            r is None <==> regex_group(self.view(), text@, group@) is None,
    {
        captured_group(self, text, group)
    }

    /// `template` expanded with the groups of the first match in `text`.
    pub fn expand(&self, text: &str, template: &str) -> (r: Option<String>)
        ensures
            r matches Some(s) ==> regex_expansion(self.view(), text@, template@) == Some(s@),
            r is None <==> regex_expansion(self.view(), text@, template@) is None,
    {
        expanded(self, text, template)
    }
}

} // verus!
