//! Fuzzy name matching for search and install fallback, through the
//! `fuzzy-matcher` crate's skim scorer.

use vstd::prelude::*;
use fuzzy_matcher::FuzzyMatcher;

verus! {

/// The skim fuzzy-match score of a pattern against a choice, or nothing
/// when the pattern is no (case-folded) subsequence of the choice.  Named,
/// not defined: the scoring model lives in an outside implementation and
/// depends on the two texts alone.
pub uninterp spec fn fuzzy_score_of(choice: Seq<char>, pattern: Seq<char>) -> Option<i64>;

/// Relies on fuzzy_matcher::skim::SkimMatcherV2::fuzzy_match with the
/// default configuration: a pure function of choice and pattern.
#[verifier::external_body]
pub fn fuzzy_score(choice: &str, pattern: &str) -> (r: Option<i64>)
    ensures
        r == fuzzy_score_of(choice@, pattern@),
{
    let matcher = fuzzy_matcher::skim::SkimMatcherV2::default();
    matcher.fuzzy_match(choice, pattern)
}

} // verus!
