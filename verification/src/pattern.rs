//! Path patterns compiled by the `regex` crate.

use vstd::prelude::*;
use regex::Regex;

verus! {

#[verifier::external_type_specification]
#[verifier::external_body]
pub struct ExRegex(regex::Regex);

/// What `regex::Regex::new` says of `pattern`: `None` when it accepts the
/// pattern, else the message its error displays.
pub uninterp spec fn regex_error(pattern: Seq<char>) -> Option<Seq<char>>;

/// Whether the regex compiled from `pattern` matches somewhere in `haystack`
/// (`regex::Regex::is_match`).
pub uninterp spec fn regex_is_match(pattern: Seq<char>, haystack: Seq<char>) -> bool;

/// Whether `regex::Regex::new` accepts `pattern`.
pub open spec fn regex_compiles(pattern: Seq<char>) -> bool {
    regex_error(pattern) is None
}

/// A path pattern together with its compiled form.
#[derive(Debug)]
pub struct PathRegex {
    pattern: String,
    compiled: Regex,
}

/// Calls `regex::Regex::new` on `pattern` and keeps the pattern beside its
/// compiled form. The contract claims that it succeeds exactly when
/// `regex_error` is `None`, and that a failure carries the text of the regex
/// crate's error, `regex_error`.
#[verifier::external_body]
fn compile_path_regex(pattern: String) -> (r: Result<PathRegex, String>)
    ensures
        match regex_error(pattern@) {
            None => r matches Ok(re) && re.spec_pattern() == pattern@,
            Some(e) => r matches Err(m) && m@ == e,
        },
{
    match Regex::new(&pattern) {
        Ok(compiled) => Ok(PathRegex { pattern, compiled }),
        Err(e) => Err(e.to_string()),
    }
}

impl PathRegex {
    /// The source text of the pattern.
    pub closed spec fn spec_pattern(&self) -> Seq<char> {
        self.pattern@
    }

    /// Compiles `pattern`; fails exactly when the regex crate rejects it, with
    /// the regex crate's message.
    pub fn new(pattern: String) -> (r: Result<PathRegex, String>)
        ensures
            match regex_error(pattern@) {
                None => r matches Ok(re) && re.spec_pattern() == pattern@,
                Some(e) => r matches Err(m) && m@ == e,
            },
    {
        compile_path_regex(pattern)
    }

    /// The source text of the pattern.
    pub fn as_str(&self) -> (s: &str)
        ensures
            s@ == self.spec_pattern(),
    {
        self.pattern.as_str()
    }

    /// Calls `regex::Regex::is_match` on the compiled form. The only maker of a
    /// `PathRegex` is `compile_path_regex`, which compiles the pattern it keeps,
    /// so the contract claims the answer of the regex compiled from that
    /// pattern.
    #[verifier::external_body]
    pub(crate) fn is_match(&self, haystack: &str) -> (b: bool)
        ensures
            b == regex_is_match(self.spec_pattern(), haystack@),
    {
        self.compiled.is_match(haystack)
    }
}

} // verus!
