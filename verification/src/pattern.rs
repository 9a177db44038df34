//! Regular-expression matching through the `regex` crate.
//!
//! Each trusted item compiles its pattern with `regex::Regex::new` and uses the
//! compiled regex once; what that yields is named, not restated.

use vstd::prelude::*;

verus! {

/// The text `regex` produces for `Regex::new(pattern)` followed by
/// `replace_all(haystack, replacement)`, or `None` when the pattern does not
/// compile.
pub uninterp spec fn regex_replace_all(
    pattern: Seq<char>,
    haystack: Seq<char>,
    replacement: Seq<char>,
) -> Option<Seq<char>>;

/// What `Regex::new(pattern)` followed by `is_match(haystack)` answers, or
/// `None` when the pattern does not compile.
pub uninterp spec fn regex_is_match(pattern: Seq<char>, haystack: Seq<char>) -> Option<bool>;

/// Compiles `pattern` with `regex::Regex::new` and, when it compiles, replaces
/// every non-overlapping match in `haystack` with `replacement` through
/// `Regex::replace_all`. The contract names the result; it claims only that it
/// is a function of the three texts.
#[verifier::external_body]
pub(crate) fn replace_all_matches(pattern: &str, haystack: &str, replacement: &str) -> (res:
    Option<String>)
    ensures
        res.deep_view() == regex_replace_all(pattern@, haystack@, replacement@),
{
    match regex::Regex::new(pattern) {
        Ok(re) => Some(re.replace_all(haystack, replacement).into_owned()),
        Err(_) => None,
    }
}

/// Compiles `pattern` with `regex::Regex::new` and, when it compiles, asks
/// `Regex::is_match` whether it matches somewhere in `haystack`. The contract
/// names the result; it claims only that it is a function of the two texts.
#[verifier::external_body]
pub(crate) fn is_match(pattern: &str, haystack: &str) -> (res: Option<bool>)
    ensures
        res == regex_is_match(pattern@, haystack@),
{
    match regex::Regex::new(pattern) {
        Ok(re) => Some(re.is_match(haystack)),
        Err(_) => None,
    }
}

} // verus!
