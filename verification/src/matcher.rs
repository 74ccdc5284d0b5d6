//! Multi-pattern matching with an Aho-Corasick automaton (leftmost-longest,
//! ASCII case-insensitive), shared by the implicit mention finder and the
//! gazetteer.

use aho_corasick::AhoCorasick;
use vstd::prelude::*;

use crate::text::string_views;

verus! {

#[verifier::external_type_specification]
#[verifier::external_body]
pub struct ExAhoCorasick(AhoCorasick);

/// The patterns an automaton was built from, in pattern-ID order.
pub uninterp spec fn automaton_patterns(ac: AhoCorasick) -> Seq<Seq<char>>;

/// The non-overlapping leftmost-longest matches of `patterns` in `text`,
/// comparing ASCII letters without case, scanned left to right, each as
/// (pattern ID, start byte, end byte).
pub uninterp spec fn leftmost_longest_matches(patterns: Seq<Seq<char>>, text: Seq<char>) -> Seq<
    (usize, usize, usize),
>;

/// Whether building a leftmost-longest, ASCII case-insensitive automaton
/// from `patterns` stays within the crate's fixed size limits.
pub uninterp spec fn automaton_builds(patterns: Seq<Seq<char>>) -> bool;

/// `AhoCorasickBuilder::build` with leftmost-longest matching and ASCII case
/// insensitivity. It succeeds exactly when the patterns fit the crate's size
/// limits (a property of the patterns alone, named `automaton_builds`); then
/// the automaton holds exactly `patterns`, pattern `i` having ID `i`; on
/// failure the error is the crate's message, which is not stated.
#[verifier::external_body]
pub(crate) fn build_automaton(patterns: &Vec<String>) -> (r: Result<AhoCorasick, String>)
    ensures
        r is Ok <==> automaton_builds(string_views(patterns@)),
        r matches Ok(ac) ==> automaton_patterns(ac) == string_views(patterns@),
{
    match aho_corasick::AhoCorasickBuilder::new().match_kind(
        aho_corasick::MatchKind::LeftmostLongest,
    ).ascii_case_insensitive(true).build(patterns) {
        Ok(ac) => Ok(ac),
        Err(e) => Err(e.to_string()),
    }
}

/// `AhoCorasick::find_iter` on `text`, each match as (pattern ID, start, end).
/// An automaton built by `build_automaton` supports this unanchored search,
/// so the call does not panic.
#[verifier::external_body]
pub(crate) fn automaton_find(ac: &AhoCorasick, text: &str) -> (r: Vec<(usize, usize, usize)>)
    ensures
        r@ == leftmost_longest_matches(automaton_patterns(*ac), text@),
{
    ac.find_iter(text).map(|m| (m.pattern().as_usize(), m.start(), m.end())).collect()
}

} // verus!
