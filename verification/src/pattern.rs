//! Regular expressions, through the `regex` crate.
//!
//! What a regular expression matches takes the crate's whole engine to state,
//! so its answers are named here and not described: `regex_compiles`,
//! `regex_is_match` and `regex_group_pairs` stand for what the crate computes
//! from a pattern and a text, and nothing more is claimed of them.

use vstd::prelude::*;

verus! {

/// `regex::Regex`, carried through opaquely.
#[verifier::external_type_specification]
#[verifier::external_body]
pub struct ExRegex(regex::Regex);

/// Whether `regex::Regex::new` accepts `pattern`.
pub uninterp spec fn regex_compiles(pattern: Seq<char>) -> bool;

/// What `regex::Regex::is_match` answers for the expression built from
/// `pattern` on `haystack`.
pub uninterp spec fn regex_is_match(pattern: Seq<char>, haystack: Seq<char>) -> bool;

/// What `regex::Regex::captures_iter` finds for the expression built from
/// `pattern` in `haystack`: for each successive match, the texts of capture
/// groups 1 and 2, each empty where the group took no part in the match.
pub uninterp spec fn regex_group_pairs(pattern: Seq<char>, haystack: Seq<char>) -> Seq<
    (Seq<char>, Seq<char>),
>;

/// A compiled regular expression together with the pattern it was built from.
pub struct Pattern {
    source: String,
    compiled: regex::Regex,
}

impl Pattern {
    /// The pattern this expression was compiled from.
    pub closed spec fn source(&self) -> Seq<char> {
        self.source@
    }
}

/// Compiles `pattern` with `regex::Regex::new`: `Some` exactly where the
/// crate accepts the pattern, holding the pattern it was built from.
#[verifier::external_body]
pub(crate) fn compile_pattern(pattern: &str) -> (r: Option<Pattern>)
    ensures
        r is Some <==> regex_compiles(pattern@),
        r matches Some(p) ==> p.source() == pattern@,
{
    match regex::Regex::new(pattern) {
        Ok(compiled) => Some(Pattern { source: pattern.to_string(), compiled }),
        Err(_) => None,
    }
}

/// `regex::Regex::is_match`: whether the expression matches somewhere in
/// `haystack`, as named by `regex_is_match`.
#[verifier::external_body]
pub(crate) fn pattern_is_match(p: &Pattern, haystack: &str) -> (r: bool)
    ensures
        r == regex_is_match(p.source(), haystack@),
{
    p.compiled.is_match(haystack)
}

/// `regex::Regex::captures_iter`, keeping the texts of groups 1 and 2 of
/// each match, as named by `regex_group_pairs`.
#[verifier::external_body]
pub(crate) fn pattern_group_pairs(p: &Pattern, haystack: &str) -> (r: Vec<(String, String)>)
    ensures
        r@.map_values(|g: (String, String)| (g.0@, g.1@)) == regex_group_pairs(
            p.source(),
            haystack@,
        ),
{
    p.compiled.captures_iter(haystack).map(
        |c| (c.get(1).map_or("", |m| m.as_str()).to_string(), c.get(2).map_or("", |m| m.as_str()).to_string()),
    ).collect()
}

} // verus!
