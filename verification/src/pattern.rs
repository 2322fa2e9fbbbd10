//! Regular-expression filters (the `regex` crate).

use vstd::prelude::*;

verus! {

/// `pattern` is accepted by `regex::Regex::new`.
pub uninterp spec fn regex_valid(pattern: Seq<char>) -> bool;

/// `regex::Regex::is_match`: the regex compiled from `pattern` matches
/// somewhere in `text`.
pub uninterp spec fn regex_is_match(pattern: Seq<char>, text: Seq<char>) -> bool;

#[verifier::external_type_specification]
#[verifier::external_body]
pub struct ExRegex(regex::Regex);

/// A compiled regular expression together with its source text.
pub struct Pattern {
    re: regex::Regex,
    source: String,
}

impl Pattern {
    /// The source text the expression was compiled from.
    pub closed spec fn source(self) -> Seq<char> {
        self.source@
    }
}

/// `regex::Regex::new`: compiles `pattern`; `None` when the crate refuses it.
#[verifier::external_body]
pub(crate) fn compile(pattern: &str) -> (res: Option<Pattern>)
    ensures
        res is Some <==> regex_valid(pattern@),
        res matches Some(p) ==> p.source() == pattern@,
{
    match regex::Regex::new(pattern) {
        Ok(re) => Some(Pattern { re, source: pattern.to_string() }),
        Err(_) => None,
    }
}

/// `regex::Regex::is_match` on a compiled pattern.
#[verifier::external_body]
pub(crate) fn is_match(p: &Pattern, text: &str) -> (b: bool)
    ensures
        b == regex_is_match(p.source(), text@),
{
    p.re.is_match(text)
}

/// The optional filter that an analysis applies: absent, or a pattern the
/// regex crate refuses, means no filtering.
pub open spec fn filter_active(filter: Option<Seq<char>>) -> bool {
    filter matches Some(f) && regex_valid(f)
}

/// `text` passes the optional filter.
pub open spec fn passes(filter: Option<Seq<char>>, text: Seq<char>) -> bool {
    match filter {
        Some(f) => !regex_valid(f) || regex_is_match(f, text),
        None => true,
    }
}

/// Compiles the optional filter (`filter.and_then(|f| Regex::new(f).ok())`).
pub fn compile_filter(filter: Option<&str>) -> (res: Option<Pattern>)
    ensures
        res is Some <==> filter_active(opt_view(filter)),
        res matches Some(p) ==> opt_view(filter) == Some(p.source()),
{
    match filter {
        Some(f) => compile(f),
        None => None,
    }
}

/// The characters of an optional string.
pub open spec fn opt_view(filter: Option<&str>) -> Option<Seq<char>> {
    match filter {
        Some(f) => Some(f@),
        None => None,
    }
}

/// `text` passes the compiled optional filter.
pub fn passes_filter(re: &Option<Pattern>, text: &str) -> (b: bool)
    ensures
        b == match re {
            Some(p) => regex_is_match(p.source(), text@),
            None => true,
        },
{
    match re {
        Some(p) => is_match(p, text),
        None => true,
    }
}

} // verus!
