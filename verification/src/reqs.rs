//! Version-range requirements, through the `semver` crate.

use vstd::prelude::*;

verus! {

/// True when the text parses as a version requirement.  Named, not
/// defined: the range grammar lives in an outside implementation and
/// depends on the text alone.
pub uninterp spec fn req_well_formed(req: Seq<char>) -> bool;

/// True when the version denoted by `version` satisfies the requirement
/// denoted by `req`; false when the version does not parse.
pub uninterp spec fn req_allows(req: Seq<char>, version: Seq<char>) -> bool;

/// Relies on semver::VersionReq::parse: parsing succeeds exactly on
/// well-formed requirement texts.
#[verifier::external_body]
pub fn req_is_valid(req: &str) -> (r: bool)
    ensures
        r == req_well_formed(req@),
{
    semver::VersionReq::parse(req).is_ok()
}

/// Relies on semver::VersionReq::parse, semver::Version::parse and
/// semver::VersionReq::matches: whether the version satisfies the
/// requirement, a function of the two texts alone; an unparseable version
/// satisfies nothing.
#[verifier::external_body]
pub fn req_matches(req: &str, version: &str) -> (r: bool)
    ensures
        req_well_formed(req@) ==> r == req_allows(req@, version@),
{
    match semver::VersionReq::parse(req) {
        Ok(r) => match semver::Version::parse(version) {
            Ok(v) => r.matches(&v),
            Err(_) => false,
        },
        Err(_) => false,
    }
}

} // verus!
