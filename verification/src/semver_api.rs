//! Trusted boundary to the `semver` crate. Whether a version string or a
//! range string parses, and whether a range matches a version, are
//! deterministic functions of the strings alone; the library names those
//! results and proves everything else against the names.

use vstd::prelude::*;

verus! {

#[verifier::external_type_specification]
#[verifier::external_body]
pub struct ExSemverVersion(semver::Version);

#[verifier::external_type_specification]
#[verifier::external_body]
pub struct ExSemverVersionReq(semver::VersionReq);

#[verifier::external_type_specification]
#[verifier::external_body]
pub struct ExSemverError(semver::Error);

/// Whether `semver::Version::parse` accepts the string.
pub uninterp spec fn version_ok(s: Seq<char>) -> bool;

/// Whether `semver::VersionReq::parse` accepts the string.
pub uninterp spec fn req_ok(s: Seq<char>) -> bool;

/// What `semver::VersionReq::matches` returns for the range and version
/// parsed from the two strings (meaningful when both parse).
pub uninterp spec fn req_matches_version(req: Seq<char>, vers: Seq<char>) -> bool;

/// A range string matches a version string: both parse and the parsed range
/// matches the parsed version.
pub open spec fn req_match_total(req: Seq<char>, vers: Seq<char>) -> bool {
    req_ok(req) && version_ok(vers) && req_matches_version(req, vers)
}

/// Relies on `semver::Version::parse`: a pure parser, so whether it returns
/// `Ok` depends on the string alone.
#[verifier::external_body]
pub fn parse_version(s: &str) -> (r: Result<semver::Version, semver::Error>)
    ensures
        r is Ok <==> version_ok(s@),
{
    semver::Version::parse(s)
}

/// Relies on `semver::VersionReq::parse`: a pure parser, so whether it
/// returns `Ok` depends on the string alone.
#[verifier::external_body]
pub fn parse_requirement(s: &str) -> (r: Result<semver::VersionReq, semver::Error>)
    ensures
        r is Ok <==> req_ok(s@),
{
    semver::VersionReq::parse(s)
}

/// Relies on `semver::VersionReq::parse`, `semver::Version::parse` and
/// `semver::VersionReq::matches`. All three are pure functions of their
/// arguments, so the returned boolean is a function of the two strings; it is
/// `false` whenever either string fails to parse.
#[verifier::external_body]
pub fn matches_requirement(req: &str, vers: &str) -> (r: bool)
    ensures
        r == (req_ok(req@) && version_ok(vers@) && req_matches_version(req@, vers@)),
{
    match (semver::VersionReq::parse(req), semver::Version::parse(vers)) {
        (Ok(q), Ok(v)) => q.matches(&v),
        _ => false,
    }
}

/// Relies on the `Display` impl of `semver::Error` for diagnostic text;
/// nothing is assumed of the text.
#[verifier::external_body]
pub fn semver_error_text(e: &semver::Error) -> String {
    e.to_string()
}

} // verus!
