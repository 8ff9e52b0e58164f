//! Regular expressions, through the `regex` crate.
use vstd::prelude::*;


verus! {

#[verifier::external_type_specification]
#[verifier::external_body]
pub struct ExRegex(regex::Regex);

/// Whether `regex::Regex::new` accepts the pattern.
pub uninterp spec fn regex_compiles(pattern: Seq<char>) -> bool;

/// Whether the pattern matches somewhere in the text.
pub uninterp spec fn regex_is_match(pattern: Seq<char>, text: Seq<char>) -> bool;

/// For each match of the pattern in the text, in order, every capture
/// group, group 0 (the whole match) first: its text, or `None` when the
/// group took no part in the match.
pub uninterp spec fn regex_captures(pattern: Seq<char>, text: Seq<char>) -> Seq<
    Seq<Option<Seq<char>>>,
>;

/// The texts of one match's groups.
pub open spec fn options_view(g: Seq<Option<String>>) -> Seq<Option<Seq<char>>> {
    g.map_values(|o: Option<String>| match o {
        Some(s) => Some(s@),
        None => None,
    })
}

/// The texts of the groups of every match.
pub open spec fn groups_of_matches(v: Seq<Vec<Option<String>>>) -> Seq<Seq<Option<Seq<char>>>> {
    v.map_values(|m: Vec<Option<String>>| options_view(m@))
}

/// A compiled pattern and the text it was compiled from. Only
/// `compile_pattern` builds one.
pub struct CompiledPattern {
    source: String,
    regex: regex::Regex,
}

impl CompiledPattern {
    /// The text the pattern was compiled from.
    pub closed spec fn source(&self) -> Seq<char> {
        self.source@
    }
}

/// Relies on `regex::Regex::new`: it accepts or refuses a pattern on the
/// pattern alone.
#[verifier::external_body]
pub(crate) fn compile_pattern(pattern: &str) -> (r: Option<CompiledPattern>)
    ensures
        r is Some == regex_compiles(pattern@),
        r matches Some(c) ==> c.source() == pattern@,
{
    match regex::Regex::new(pattern) {
        Ok(regex) => Some(CompiledPattern { source: pattern.to_string(), regex }),
        Err(_) => None,
    }
}

/// Relies on `regex::Regex::is_match`: whether the pattern matches anywhere
/// in the text.
#[verifier::external_body]
pub(crate) fn pattern_matches(c: &CompiledPattern, text: &str) -> (r: bool)
    ensures
        r == regex_is_match(c.source(), text@),
{
    c.regex.is_match(text)
}

/// Relies on `regex::Regex::captures_iter` and `Captures::iter`: match by
/// match, every capture group, group 0 first, with its text when it took
/// part in the match.
#[verifier::external_body]
pub(crate) fn captures(c: &CompiledPattern, text: &str) -> (r: Vec<Vec<Option<String>>>)
    ensures
        groups_of_matches(r@) == regex_captures(c.source(), text@),
{
    c.regex.captures_iter(text).map(
        |caps| caps.iter().map(|m| m.map(|m| m.as_str().to_string())).collect(),
    ).collect()
}

/// Whether `pattern` is a valid regular expression.
pub fn pattern_is_valid(pattern: &str) -> (r: bool)
    ensures
        r == regex_compiles(pattern@),
{
    compile_pattern(pattern).is_some()
}

} // verus!
