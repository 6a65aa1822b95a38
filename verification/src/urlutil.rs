//! Source locations: normalization, validity, and base-relative
//! resolution, through the `url` crate.

use vstd::prelude::*;

verus! {

/// True when the text parses as an absolute URL.  Named, not defined: the
/// grammar lives in an outside implementation and depends on the text alone.
pub uninterp spec fn url_well_formed(url: Seq<char>) -> bool;

/// The normalized form of a well-formed URL.
pub uninterp spec fn url_normal_of(url: Seq<char>) -> Seq<char>;

/// True when `rel` resolves against the base URL `base`.
pub uninterp spec fn url_join_ok(base: Seq<char>, rel: Seq<char>) -> bool;

/// The absolute URL that `rel` denotes relative to `base`.
pub uninterp spec fn url_join_of(base: Seq<char>, rel: Seq<char>) -> Seq<char>;

/// Relies on url::Url::parse and url::Url::as_str: parsing succeeds exactly
/// on well-formed absolute URLs and yields their normalized text, a
/// function of the input alone.
#[verifier::external_body]
pub fn normalize_url(url: &str) -> (r: Option<String>)
    ensures
        r is Some <==> url_well_formed(url@),
        match r {
            Some(s) => s@ == url_normal_of(url@),
            None => true,
        },
{
    match url::Url::parse(url) {
        Ok(u) => Some(u.as_str().to_string()),
        Err(_) => None,
    }
}

/// Relies on url::Url::parse and url::Url::join: standard base-plus-relative
/// resolution, yielding the resolved URL's text, a function of the inputs
/// alone.
#[verifier::external_body]
pub fn resolve_relative_url(base: &str, rel: &str) -> (r: Option<String>)
    ensures
        r is Some <==> url_join_ok(base@, rel@),
        match r {
            Some(s) => s@ == url_join_of(base@, rel@),
            None => true,
        },
{
    match url::Url::parse(base) {
        Ok(b) => match b.join(rel) {
            Ok(j) => Some(j.as_str().to_string()),
            Err(_) => None,
        },
        Err(_) => None,
    }
}

/// True when the text parses as an absolute URL.
pub fn url_is_valid(url: &str) -> (r: bool)
    ensures
        r == url_well_formed(url@),
{
    normalize_url(url).is_some()
}

} // verus!
