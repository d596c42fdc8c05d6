//! Version-requirement matching, delegated to the semver crate.

use vstd::prelude::*;

verus! {

/// Whether the version written in `version` satisfies the requirement range
/// written in `req`, as semantic versioning defines it: a deterministic
/// function of the two strings alone.
pub uninterp spec fn req_matches_spec(req: Seq<char>, version: Seq<char>) -> bool;

/// Relies on `semver::VersionReq::parse`, `semver::Version::parse` and
/// `semver::VersionReq::matches`: decides whether `version` satisfies `req`.
/// An unparseable requirement or version satisfies nothing.
#[verifier::external_body]
pub(crate) fn req_matches(req: &str, version: &str) -> (r: bool)
    ensures
        r == req_matches_spec(req@, version@),
{
    match (semver::VersionReq::parse(req), semver::Version::parse(version)) {
        (Ok(rq), Ok(v)) => rq.matches(&v),
        _ => false,
    }
}

} // verus!
