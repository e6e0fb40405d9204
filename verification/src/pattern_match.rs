//! Regular-expression matching of question-number patterns, through the
//! `regex` crate.
use regex::{Error, Regex};
use vstd::prelude::*;

verus! {

#[verifier::external_type_specification]
#[verifier::external_body]
pub struct ExRegex(Regex);

#[verifier::external_type_specification]
#[verifier::external_body]
pub struct ExRegexError(Error);

/// `Regex::new(pattern)` succeeds (the pattern is valid and within the
/// default size limit).
pub uninterp spec fn regex_compiles(pattern: Seq<char>) -> bool;

/// `Regex::is_match` of the regex compiled from `pattern` on `text`.
pub uninterp spec fn regex_is_match(pattern: Seq<char>, text: Seq<char>) -> bool;

/// Text of capture group 1 of the leftmost match of `pattern` in `text`
/// (`captures(text)` then `get(1)`), if any.
pub uninterp spec fn regex_group1(pattern: Seq<char>, text: Seq<char>) -> Option<Seq<char>>;

/// A compiled regular expression together with the pattern it was compiled
/// from.  Only [`CompiledRegex::compile`] makes one, so the two always agree.
pub struct CompiledRegex {
    source: String,
    regex: Regex,
}

impl CompiledRegex {
    /// The pattern this regex was compiled from.
    pub closed spec fn pattern(&self) -> Seq<char> {
        self.source@
    }

    /// Compiles `pattern` with `regex::Regex::new`.  The contract states that
    /// the result succeeds exactly when the pattern compiles, and that a
    /// success remembers the pattern; what compiling means is left to the
    /// `regex` crate.
    #[verifier::external_body]
    pub(crate) fn compile(pattern: &str) -> (r: Result<CompiledRegex, Error>)
        ensures
            r.is_ok() == regex_compiles(pattern@),
            r matches Ok(c) ==> c.pattern() == pattern@,
    {
        match Regex::new(pattern) {
            Ok(regex) => Ok(CompiledRegex { source: pattern.to_string(), regex }),
            Err(e) => Err(e),
        }
    }

    /// `regex::Regex::is_match`: whether the regex matches somewhere in `text`.
    /// The result is named, not described.
    #[verifier::external_body]
    pub(crate) fn is_match(&self, text: &str) -> (b: bool)
        ensures
            b == regex_is_match(self.pattern(), text@),
    {
        self.regex.is_match(text)
    }

    /// `regex::Regex::captures` followed by group 1 of the captures: the text
    /// of the first capture group of the leftmost match, if there is a match
    /// and the group took part in it.  The result is named, not described.
    #[verifier::external_body]
    pub(crate) fn first_group(&self, text: &str) -> (r: Option<String>)
        ensures
            r matches Some(s) ==> regex_group1(self.pattern(), text@) == Some(s@),
            r is None ==> regex_group1(self.pattern(), text@) is None,
    {
        self.regex.captures(text).and_then(|c| c.get(1)).map(|m| m.as_str().to_string())
    }
}

} // verus!
