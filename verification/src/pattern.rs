//! Regular-expression search, as performed by the `regex` crate.
//!
//! What the crate's engine accepts and finds is not defined here: both are
//! given names, and the library's contracts speak of those names.

use regex::Regex;
use vstd::prelude::*;

verus! {

/// Whether `Regex::new` accepts `pattern` as a regular expression: whether
/// its syntax is valid and the compiled expression stays within the crate's
/// default size limit. The limit is counted in bytes of the compiled
/// program, so the name stands for the answer of one build of the library.
pub uninterp spec fn regex_compiles(pattern: Seq<char>) -> bool;

/// Whether the regular expression compiled from `pattern` has a match
/// anywhere in `haystack`, as `Regex::is_match` reports it.
pub uninterp spec fn regex_finds(pattern: Seq<char>, haystack: Seq<char>) -> bool;

/// Whether `pattern` is a usable regular expression with a match somewhere
/// in `haystack`. A pattern that does not compile is found nowhere.
pub open spec fn found(pattern: Seq<char>, haystack: Seq<char>) -> bool {
    regex_compiles(pattern) && regex_finds(pattern, haystack)
}

/// Compiles `pattern` with `regex::Regex::new` and searches `haystack` with
/// `regex::Regex::is_match`.
///
/// Trusted: the result is `None` exactly when `Regex::new` returns an error
/// for `pattern`, be it for its syntax or for its size; otherwise it holds
/// what `is_match` returns for `haystack`. Both depend on the two texts
/// alone: the expression is compiled with the crate's default options,
/// which are constants.
#[verifier::external_body]
pub(crate) fn search(pattern: &str, haystack: &str) -> (outcome: Option<bool>)
    ensures
        outcome == (if regex_compiles(pattern@) {
            Some(regex_finds(pattern@, haystack@))
        } else {
            None::<bool>
        }),
{
    match Regex::new(pattern) {
        Ok(re) => Some(re.is_match(haystack)),
        Err(_) => None,
    }
}

/// Whether `pattern` is found in `haystack`; `false` for a pattern that does
/// not compile.
pub fn is_found(pattern: &str, haystack: &str) -> (b: bool)
    ensures
        b == found(pattern@, haystack@),
{
    match search(pattern, haystack) {
        Some(hit) => hit,
        None => false,
    }
}

} // verus!
