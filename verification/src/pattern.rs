//! Regular expressions, matched by the `regex` crate.
//!
//! Nothing here says what a pattern matches: the crate's results are given
//! names, and what is built from them is stated over the names.

use vstd::prelude::*;

verus! {

/// Whether `regex::Regex::new` accepts `pattern`.
pub uninterp spec fn pattern_compiles(pattern: Seq<char>) -> bool;

/// What `regex::Regex::split` yields for `text` under `pattern`: the stretches
/// of `text` that lie before, between and after the successive matches.
pub uninterp spec fn pieces_between(pattern: Seq<char>, text: Seq<char>) -> Seq<Seq<char>>;

/// What `regex::Regex::captures_iter` yields for `text` under `pattern`, each
/// match taken by `regex::Captures::get` at `group`: the text of that group in
/// each successive match, `None` where the pattern has no such group or the
/// group took no part in the match.
pub uninterp spec fn groups_of(pattern: Seq<char>, text: Seq<char>, group: nat) -> Seq<
    Option<Seq<char>>,
>;

/// `regex::Regex::new`, then `regex::Regex::split`, collected.
///
/// `None` exactly where the pattern does not compile. Otherwise the pieces are
/// those that `split` yields, in order.
#[verifier::external_body]
pub(crate) fn split(pattern: &str, text: &str) -> (out: Option<Vec<String>>)
    ensures
        out is Some <==> pattern_compiles(pattern@),
        out matches Some(pieces) ==> pieces.deep_view() == pieces_between(pattern@, text@),
{
    match regex::Regex::new(pattern) {
        Ok(re) => Some(re.split(text).map(|piece| piece.to_string()).collect()),
        Err(_) => None,
    }
}

/// `regex::Regex::new`, then `regex::Regex::captures_iter`, each match taken
/// by `regex::Captures::get` at `group`, collected.
///
/// `None` exactly where the pattern does not compile. Otherwise one item per
/// successive match, in order. `split` cuts the text at the same matches, so
/// it yields one piece more than there are matches.
#[verifier::external_body]
pub(crate) fn captures(pattern: &str, text: &str, group: usize) -> (out: Option<
    Vec<Option<String>>,
>)
    ensures
        out is Some <==> pattern_compiles(pattern@),
        out matches Some(groups) ==> groups.deep_view() == groups_of(
            pattern@,
            text@,
            group as nat,
        ),
        out matches Some(groups) ==> pieces_between(pattern@, text@).len() == groups.len() + 1,
{
    match regex::Regex::new(pattern) {
        Ok(re) => Some(
            re.captures_iter(text).map(
                |found| found.get(group).map(|part| part.as_str().to_string()),
            ).collect(),
        ),
        Err(_) => None,
    }
}

} // verus!
