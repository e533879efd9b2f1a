//! Regular expressions (the `regex` crate) as the extractors use them:
//! compiled once from their source text, then searched.

use vstd::prelude::*;
use crate::text::owned;

verus! {

#[verifier::external_type_specification]
#[verifier::external_body]
pub struct ExRegex(regex::Regex);

#[verifier::external_type_specification]
#[verifier::external_body]
pub struct ExRegexError(regex::Error);

/// Whether `regex::Regex::new` accepts a pattern.
pub uninterp spec fn regex_compiles(source: Seq<char>) -> bool;

/// The text of the first match of a pattern in a haystack
/// (`regex::Regex::find`).
pub uninterp spec fn regex_find(source: Seq<char>, text: Seq<char>) -> Option<Seq<char>>;

/// The capture groups of the first match of a pattern in a haystack
/// (`regex::Regex::captures`): group 0 is the whole match, a group that
/// did not participate is absent.
pub uninterp spec fn regex_captures(source: Seq<char>, text: Seq<char>) -> Option<Seq<Option<Seq<char>>>>;

/// `regex::Regex::new`: compiles a pattern; fails exactly on the patterns
/// it does not accept.
#[verifier::external_body]
fn regex_new(source: &str) -> (r: Result<regex::Regex, regex::Error>)
    ensures
        r is Ok <==> regex_compiles(source@),
{
    regex::Regex::new(source)
}

/// A pattern that did not compile.
#[derive(Debug)]
pub struct PatternError {
    pub pattern: String,
}

/// A compiled regular expression and the source it was compiled from.
pub struct Pattern {
    source: String,
    compiled: regex::Regex,
}

impl Pattern {
    /// The source text the pattern was compiled from.
    pub closed spec fn source(&self) -> Seq<char> {
        self.source@
    }

    /// Compile `source`.
    pub fn new(source: &str) -> (r: Result<Pattern, PatternError>)
        ensures
            r is Ok <==> regex_compiles(source@),
            r matches Ok(p) ==> p.source() == source@,
            r matches Err(e) ==> e.pattern@ == source@,
    {
        match regex_new(source) {
            Ok(compiled) => Ok(Pattern { source: owned(source), compiled }),
            Err(_) => Err(PatternError { pattern: owned(source) }),
        }
    }

    /// The source text.
    pub fn as_str(&self) -> (s: &str)
        ensures
            s@ == self.source(),
    {
        self.source.as_str()
    }
}

/// `regex::Regex::find` on the pattern's compiled form: the text of the
/// first match in `text`, as named by [`regex_find`] for the pattern's
/// source (a `Pattern` is only ever built from its source by
/// [`Pattern::new`]).
#[verifier::external_body]
pub(crate) fn find(p: &Pattern, text: &str) -> (r: Option<String>)
    ensures
        r.deep_view() == regex_find(p.source(), text@),
{
    p.compiled.find(text).map(|m| m.as_str().to_string())
}

/// `regex::Regex::captures` on the pattern's compiled form: the texts of
/// the groups of the first match in `text`, as named by
/// [`regex_captures`] for the pattern's source.
#[verifier::external_body]
pub(crate) fn captures(p: &Pattern, text: &str) -> (r: Option<Vec<Option<String>>>)
    ensures
        r.deep_view() == regex_captures(p.source(), text@),
{
    p.compiled.captures(text).map(|c| c.iter().map(|g| g.map(|m| m.as_str().to_string())).collect())
}

} // verus!
