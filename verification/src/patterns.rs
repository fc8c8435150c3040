//! Trusted interface to the regex crate, which compiles and applies the
//! caller-supplied include and exclude path patterns. Everything else in
//! this crate is verified against the three named facts below.

use vstd::prelude::*;

verus! {

#[verifier::external_type_specification]
#[verifier::external_body]
pub struct ExRegex(regex::Regex);

/// Whether `regex::Regex::new` accepts the pattern `p`.
pub uninterp spec fn regex_valid(p: Seq<char>) -> bool;

/// The pattern a compiled regex was built from; [`regex_new`] establishes
/// it, and every regex this crate handles comes from there.
pub uninterp spec fn regex_source(re: regex::Regex) -> Seq<char>;

/// Whether a regex that `regex::Regex::new` built from pattern `p` matches
/// somewhere in text `t`: the result of `regex::Regex::is_match`, a
/// function of the pattern and the text alone.
pub uninterp spec fn regex_match(p: Seq<char>, t: Seq<char>) -> bool;

/// Relies on regex::Regex::new: compilation succeeds exactly on the valid
/// patterns, and the compiled regex keeps the pattern string it was built
/// from.
#[verifier::external_body]
pub fn regex_new(pattern: &str) -> (r: Option<regex::Regex>)
    ensures
        r is Some <==> regex_valid(pattern@),
        r is Some ==> regex_source(r->Some_0) == pattern@,
{
    regex::Regex::new(pattern).ok()
}

/// Relies on regex::Regex::is_match: whether the regex matches anywhere in
/// `text`, a function of the regex's pattern and the text alone.
#[verifier::external_body]
pub fn regex_is_match(re: &regex::Regex, text: &str) -> (r: bool)
    ensures
        r == regex_match(regex_source(*re), text@),
{
    re.is_match(text)
}

} // verus!
