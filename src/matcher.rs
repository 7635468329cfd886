//! Regular expressions, through the `regex` crate: the selector of a sink and
//! the metric filter of a scraper.
use vstd::prelude::*;
use crate::text::strings_view;

verus! {

#[verifier::external_type_specification]
#[verifier::external_body]
pub struct ExRegex(regex::Regex);

#[verifier::external_type_specification]
#[verifier::external_body]
pub struct ExRegexSet(regex::RegexSet);

/// Whether the regular expression `pattern` matches somewhere in `text`.
pub uninterp spec fn regex_matches(pattern: Seq<char>, text: Seq<char>) -> bool;

/// Whether some of the regular expressions `patterns` matches somewhere in
/// `text`.
pub uninterp spec fn regex_set_matches(patterns: Seq<Seq<char>>, text: Seq<char>) -> bool;

/// Whether `pattern` is a regular expression that `Regex::new` accepts.
pub uninterp spec fn regex_valid(pattern: Seq<char>) -> bool;

/// Whether `patterns` are regular expressions that `RegexSet::new` accepts.
pub uninterp spec fn regex_set_valid(patterns: Seq<Seq<char>>) -> bool;

/// Relies on `regex::Regex::new`: it compiles `pattern`, or fails, and which
/// of the two depends on the pattern alone.
#[verifier::external_body]
fn compile_regex(pattern: &str) -> (r: Option<regex::Regex>)
    ensures
        r is Some <==> regex_valid(pattern@),
{
    regex::Regex::new(pattern).ok()
}

/// Relies on `regex::RegexSet::new`: it compiles all of `patterns`, or
/// fails, and which of the two depends on the patterns alone.
#[verifier::external_body]
fn compile_regex_set(patterns: &Vec<String>) -> (r: Option<regex::RegexSet>)
    ensures
        r is Some <==> regex_set_valid(strings_view(patterns@)),
{
    regex::RegexSet::new(patterns).ok()
}

/// A compiled regular expression together with its source.
pub struct Selector {
    pattern: String,
    compiled: regex::Regex,
}

impl Selector {
    pub closed spec fn pattern(&self) -> Seq<char> {
        self.pattern@
    }

    /// Compiles `pattern`; `None` when it is not a valid expression.
    pub fn new(pattern: &str) -> (r: Option<Selector>)
        ensures
            r is Some <==> regex_valid(pattern@),
            r matches Some(s) ==> s.pattern() == pattern@,
    {
        match compile_regex(pattern) {
            Some(compiled) => Some(Selector { pattern: pattern.to_owned(), compiled }),
            None => None,
        }
    }

    /// Relies on `regex::Regex::is_match`: `compiled` was built from
    /// `pattern` by `Regex::new` (in `Selector::new`, the only constructor),
    /// so the answer is that of `pattern` on `text`.
    #[verifier::external_body]
    pub(crate) fn is_match(&self, text: &str) -> (r: bool)
        ensures
            r == regex_matches(self.pattern(), text@),
    {
        self.compiled.is_match(text)
    }
}

/// A compiled set of regular expressions together with their sources.
pub struct MetricFilter {
    patterns: Vec<String>,
    compiled: regex::RegexSet,
}

impl MetricFilter {
    pub closed spec fn patterns(&self) -> Seq<Seq<char>> {
        strings_view(self.patterns@)
    }

    /// Compiles `patterns`; `None` when one of them is not a valid expression.
    pub fn new(patterns: Vec<String>) -> (r: Option<MetricFilter>)
        ensures
            r is Some <==> regex_set_valid(strings_view(patterns@)),
            r matches Some(f) ==> f.patterns() == strings_view(patterns@),
    {
        match compile_regex_set(&patterns) {
            Some(compiled) => Some(MetricFilter { patterns, compiled }),
            None => None,
        }
    }

    /// Relies on `regex::RegexSet::is_match`: `compiled` was built from
    /// `patterns` by `RegexSet::new` (in `MetricFilter::new`, the only
    /// constructor), so the answer is whether one of them matches `text`.
    #[verifier::external_body]
    pub(crate) fn is_match(&self, text: &str) -> (r: bool)
        ensures
            r == regex_set_matches(self.patterns(), text@),
    {
        self.compiled.is_match(text)
    }
}

} // verus!
