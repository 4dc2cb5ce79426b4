//! Regular expressions, as the `regex` crate compiles and matches them.

use vstd::prelude::*;

verus! {

/// A compiled regular expression of the `regex` crate.
#[verifier::external_type_specification]
#[verifier::external_body]
pub struct ExRegex(regex::Regex);

/// The error of the `regex` crate for a pattern that does not compile.
#[verifier::external_type_specification]
#[verifier::external_body]
pub struct ExRegexError(regex::Error);

/// Whether the pattern compiled from `source` matches anywhere in `text`.
pub uninterp spec fn regex_matches(source: Seq<char>, ignore_case: bool, text: Seq<char>) -> bool;

/// What a pattern was compiled from.
pub struct PatternView {
    pub source: Seq<char>,
    pub ignore_case: bool,
}

/// A compiled pattern together with what it was compiled from. The fields
/// are private and `Pattern::new` is the only way to make one, so the
/// compiled regex of a pattern is always the regex of its source and flag.
#[derive(Debug)]
pub struct Pattern {
    source: String,
    ignore_case: bool,
    compiled: regex::Regex,
}

impl View for Pattern {
    type V = PatternView;

    closed spec fn view(&self) -> PatternView {
        PatternView { source: self.source@, ignore_case: self.ignore_case }
    }
}

/// A pattern that does not compile, with the reason in words.
#[derive(Debug)]
pub struct PatternError {
    pub message: String,
}

/// `RegexBuilder::build` after `RegexBuilder::new` and
/// `RegexBuilder::case_insensitive`, with every other setting left as it
/// is. Nothing is said of which patterns compile: besides the syntax, that
/// depends on how large the compiled regex gets.
#[verifier::external_body]
fn build_regex(source: &str, ignore_case: bool) -> Result<regex::Regex, regex::Error> {
    regex::RegexBuilder::new(source).case_insensitive(ignore_case).build()
}

/// `Regex::is_match` on the compiled regex of the pattern: whether there is
/// a match anywhere in the text. The regex was compiled from the source and
/// the flag of the pattern, so the answer depends on these and on the text
/// alone.
#[verifier::external_body]
fn regex_is_match(pattern: &Pattern, text: &str) -> (r: bool)
    ensures
        r == regex_matches(pattern@.source, pattern@.ignore_case, text@),
{
    pattern.compiled.is_match(text)
}

/// The words of a `regex::Error`, as its `Display` gives them.
#[verifier::external_body]
fn regex_error_text(error: &regex::Error) -> String {
    error.to_string()
}

impl Pattern {
    /// Compiles a pattern. Whether that succeeds is for the `regex` crate to
    /// say; the pattern that comes out is the one of `source` and
    /// `ignore_case`.
    pub fn new(source: &str, ignore_case: bool) -> (r: Result<Pattern, PatternError>)
        ensures
            r matches Ok(p) ==> p@ == (PatternView { source: source@, ignore_case }),
    {
        match build_regex(source, ignore_case) {
            Ok(compiled) => Ok(Pattern { source: source.to_owned(), ignore_case, compiled }),
            Err(error) => Err(PatternError { message: regex_error_text(&error) }),
        }
    }

    /// Tells whether the pattern matches anywhere in the text.
    pub fn is_match(&self, text: &str) -> (r: bool)
        ensures
            r == regex_matches(self@.source, self@.ignore_case, text@),
    {
        regex_is_match(self, text)
    }
}

} // verus!
