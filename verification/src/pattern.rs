//! Regular expressions.

use regex::Regex;
use vstd::prelude::*;

verus! {

/// The compiled expression of the `regex` crate, carried through unopened.
#[verifier::external_type_specification]
#[verifier::external_body]
pub struct ExRegex(Regex);

/// What `regex::Regex::new` answers for a pattern: nothing where it accepts the pattern, and the
/// text of its error where it does not.
pub uninterp spec fn regex_error(pattern: Seq<char>) -> Option<Seq<char>>;

/// What `regex::Regex::is_match` answers for the expression compiled from a pattern and a text.
pub uninterp spec fn regex_is_match(pattern: Seq<char>, text: Seq<char>) -> bool;

/// A regular expression together with the pattern that it was compiled from. The two fields are
/// only ever set together, by `Pattern::new`.
pub struct Pattern {
    source: String,
    regex: Regex,
}

impl Pattern {
    /// The pattern that the expression was compiled from.
    pub closed spec fn source(&self) -> Seq<char> {
        self.source@
    }

    /// Calls `regex::Regex::new`. The claim is that whether it succeeds, and the text of its
    /// error, depend on the pattern alone, and that the result remembers the pattern.
    #[verifier::external_body]
    pub(crate) fn new(pattern: &str) -> (res: Result<Pattern, String>)
        ensures
            match res {
                Ok(p) => regex_error(pattern@) is None && p.source() == pattern@,
                Err(e) => regex_error(pattern@) == Some(e@),
            },
    {
        match Regex::new(pattern) {
            Ok(regex) => Ok(Pattern { source: pattern.to_string(), regex }),
            Err(e) => Err(e.to_string()),
        }
    }

    /// Calls `regex::Regex::is_match` on the compiled expression. The claim is that the answer
    /// depends on the pattern and the text alone.
    #[verifier::external_body]
    pub(crate) fn is_match(&self, text: &str) -> (res: bool)
        ensures
            res == regex_is_match(self.source(), text@),
    {
        self.regex.is_match(text)
    }
}

} // verus!
