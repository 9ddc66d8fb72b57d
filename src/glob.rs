//! Shell-style path patterns, matched by the `globset` crate.

use vstd::prelude::*;

verus! {

/// `globset::GlobSet`, compiled globs, held as an opaque value.
#[verifier::external_type_specification]
#[verifier::external_body]
pub struct ExGlobSet(globset::GlobSet);

/// `globset::Error`, why a glob does not parse, held as an opaque value.
#[verifier::external_type_specification]
#[verifier::external_body]
pub struct ExGlobError(globset::Error);

/// Whether `globset` accepts `pattern` as a glob (`Glob::new`) and compiles
/// it within its size limits (`GlobSet::new`).
pub uninterp spec fn glob_is_valid(pattern: Seq<char>) -> bool;

/// Whether the glob `pattern` matches `path`, as `globset` decides it with
/// default options.
pub uninterp spec fn glob_matches(pattern: Seq<char>, path: Seq<char>) -> bool;

/// A compiled glob together with the text it was compiled from.
pub struct GlobRule {
    pattern: String,
    set: globset::GlobSet,
}

impl GlobRule {
    /// The text of the glob.
    pub closed spec fn pattern(&self) -> Seq<char> {
        self.pattern@
    }
}

/// Relies on `globset::Glob::new`, which refuses malformed patterns, and on
/// `GlobSet::new`, which compiles the one glob or reports why it cannot.
#[verifier::external_body]
pub(crate) fn compile_glob(pattern: &String) -> (r: Result<GlobRule, globset::Error>)
    ensures
        r is Ok <==> glob_is_valid(pattern@),
        r matches Ok(g) ==> g.pattern() == pattern@,
{
    globset::Glob::new(pattern.as_str())
        .and_then(|g| globset::GlobSet::new([g]))
        .map(|set| GlobRule { pattern: pattern.clone(), set })
}

/// Relies on `globset::GlobSet::is_match`: whether the rule's one glob matches `path`.
#[verifier::external_body]
pub(crate) fn rule_matches(rule: &GlobRule, path: &str) -> (r: bool)
    ensures
        r == glob_matches(rule.pattern(), path@),
{
    rule.set.is_match(path)
}

} // verus!
