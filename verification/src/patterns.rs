//! Regular expressions from the `regex` crate: compiling a pattern, testing
//! a text against it, and reading the groups of a match.

use vstd::prelude::*;
use regex::Regex;

verus! {

/// `regex::Regex`, a compiled regular expression.
#[verifier::external_type_specification]
#[verifier::external_body]
pub struct ExRegex(regex::Regex);

/// Whether `pattern` compiles.
pub uninterp spec fn regex_compiles(pattern: Seq<char>) -> bool;

/// The pattern a compiled expression was made from, as `Regex::as_str`
/// gives it back.
pub uninterp spec fn regex_pattern(re: Regex) -> Seq<char>;

/// `regex::Regex::new`. Stated: it succeeds exactly when the pattern
/// compiles, and the expression keeps its pattern.
#[verifier::external_body]
pub(crate) fn regex_new(pattern: &str) -> (r: Option<Regex>)
    ensures
        r is Some <==> regex_compiles(pattern@),
        r matches Some(re) ==> regex_pattern(re) == pattern@,
{
    Regex::new(pattern).ok()
}

/// Whether a text matches a pattern.
pub uninterp spec fn pattern_matches(pattern: Seq<char>, text: Seq<char>) -> bool;

/// `regex::Regex::is_match`. Stated: the result is [`pattern_matches`] of
/// the expression's pattern and the text.
#[verifier::external_body]
pub(crate) fn regex_is_match(re: &Regex, text: &str) -> (r: bool)
    ensures
        r == pattern_matches(regex_pattern(*re), text@),
{
    re.is_match(text)
}

/// The text of an optional string.
pub open spec fn opt_text(o: Option<String>) -> Option<Seq<char>> {
    match o {
        Some(s) => Some(s@),
        None => None,
    }
}

/// The groups of the first match of a pattern in a text, group 0 first;
/// `None` without a match.
pub uninterp spec fn pattern_groups(pattern: Seq<char>, text: Seq<char>) -> Option<Seq<Option<Seq<char>>>>;

/// `regex::Regex::captures`, each group taken as its text. Stated: the
/// result is [`pattern_groups`] of the expression's pattern and the text.
#[verifier::external_body]
pub(crate) fn regex_captures(re: &Regex, text: &str) -> (r: Option<Vec<Option<String>>>)
    ensures
        match r {
            Some(v) => pattern_groups(regex_pattern(*re), text@) == Some(v@.map_values(|g: Option<String>| opt_text(g))),
            None => pattern_groups(regex_pattern(*re), text@) is None,
        },
{
    re.captures(text).map(|c| c.iter().map(|m| m.map(|x| x.as_str().to_string())).collect())
}

/// Whether `text` matches `pattern`; `None` when the pattern does not
/// compile.
pub open spec fn regex_outcome(pattern: Seq<char>, text: Seq<char>) -> Option<bool> {
    if regex_compiles(pattern) { Some(pattern_matches(pattern, text)) } else { None }
}

/// The groups of the first match of `pattern` in `text`; `None` when the
/// pattern does not compile or does not match.
pub open spec fn regex_groups(pattern: Seq<char>, text: Seq<char>) -> Option<Seq<Option<Seq<char>>>> {
    if regex_compiles(pattern) { pattern_groups(pattern, text) } else { None }
}

/// Compiles `pattern` and tests `text` against it; see [`regex_outcome`].
pub fn regex_matches(pattern: &str, text: &str) -> (r: Option<bool>)
    ensures
        r == regex_outcome(pattern@, text@),
{
    match regex_new(pattern) {
        Some(re) => Some(regex_is_match(&re, text)),
        None => None,
    }
}

/// Compiles `pattern` and reads the groups of its first match in `text`;
/// see [`regex_groups`].
pub fn regex_match_groups(pattern: &str, text: &str) -> (r: Option<Vec<Option<String>>>)
    ensures
        match r {
            Some(v) => regex_groups(pattern@, text@) == Some(v@.map_values(|g: Option<String>| opt_text(g))),
            None => regex_groups(pattern@, text@) is None,
        },
{
    match regex_new(pattern) {
        Some(re) => regex_captures(&re, text),
        None => None,
    }
}

} // verus!
