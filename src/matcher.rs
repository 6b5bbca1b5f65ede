//! Values that header names, host names and paths are matched against:
//! exact strings, and regular expressions compiled by the `regex` crate.
use vstd::prelude::*;
use crate::nocase::NoCaseStr;
use crate::text::str_eq;

verus! {

#[verifier::external_type_specification]
#[verifier::external_body]
pub struct ExRegex(regex::Regex);

/// Relies on `Clone for regex::Regex`, which copies a compiled regex;
/// nothing is stated of the copy.
pub assume_specification[ <regex::Regex as core::clone::Clone>::clone ](r: &regex::Regex) -> regex::Regex;

/// Whether `regex::RegexBuilder` compiles `pattern` with the given
/// case-insensitivity.
pub uninterp spec fn regex_builds(pattern: Seq<char>, no_case: bool) -> bool;

/// Whether the regex compiled from `pattern` with the given
/// case-insensitivity matches anywhere in `text`.
pub uninterp spec fn regex_matches(pattern: Seq<char>, no_case: bool, text: Seq<char>) -> bool;

/// Relies on `regex::RegexBuilder::build`: whether a pattern compiles
/// depends on the pattern and the case-insensitivity flag alone.
#[verifier::external_body]
fn build_regex(pattern: &str, no_case: bool) -> (r: Option<regex::Regex>)
    ensures
        r is Some == regex_builds(pattern@, no_case),
{
    regex::RegexBuilder::new(pattern).case_insensitive(no_case).build().ok()
}

/// Relies on `regex::Regex::is_match`, on the regex that [`Pattern::new`]
/// compiled from the pattern's source and flag: true if and only if the
/// regex matches somewhere in `text`.
#[verifier::external_body]
fn pattern_matches(p: &Pattern, text: &str) -> (r: bool)
    ensures
        r == regex_matches(p.source(), p.no_case(), text@),
{
    p.regex.is_match(text)
}

/// A compiled regular expression with the source it was compiled from.
#[derive(Clone, Debug)]
pub struct Pattern {
    source: String,
    no_case: bool,
    regex: regex::Regex,
}

impl Pattern {
    pub closed spec fn source(&self) -> Seq<char> {
        self.source@
    }

    pub closed spec fn no_case(&self) -> bool {
        self.no_case
    }

    /// Compiles `source`; `None` when it is not a valid regular expression.
    pub fn new(source: &str, no_case: bool) -> (r: Option<Pattern>)
        ensures
            r is Some == regex_builds(source@, no_case),
            r matches Some(p) ==> p.source() == source@ && p.no_case() == no_case,
    {
        match build_regex(source, no_case) {
            Some(regex) => Some(Pattern { source: source.to_owned(), no_case, regex }),
            None => None,
        }
    }

    /// Whether the pattern matches somewhere in `text`.
    pub fn is_match(&self, text: &str) -> (r: bool)
        ensures
            r == regex_matches(self.source(), self.no_case(), text@),
    {
        pattern_matches(self, text)
    }
}

/// The name side of a header match: compared exactly, or without case.
#[derive(Clone, Debug)]
pub enum Key {
    String(String),
    NoCaseString(NoCaseStr),
}

/// The value side of a match: an exact string or a regular expression.
#[derive(Clone, Debug)]
pub enum Value {
    String(String),
    Regex(Pattern),
}

/// A name and the value it must match.
#[derive(Clone, Debug)]
pub struct KV {
    pub key: Key,
    pub value: Value,
}

pub open spec fn key_text(k: Key) -> Seq<char> {
    match k {
        Key::String(s) => s@,
        Key::NoCaseString(n) => n@,
    }
}

/// Whether `s` matches `v`: equal to an exact string, or matched by a
/// regular expression.
pub open spec fn value_matches(s: Seq<char>, v: Value) -> bool {
    match v {
        Value::String(x) => s == x@,
        Value::Regex(p) => regex_matches(p.source(), p.no_case(), s),
    }
}

/// Decides [`value_matches`].
pub fn value_match(s1: &str, s2: &Value) -> (r: bool)
    ensures
        r == value_matches(s1@, *s2),
{
    match s2 {
        Value::String(x) => str_eq(s1, x.as_str()),
        Value::Regex(p) => p.is_match(s1),
    }
}

} // verus!
