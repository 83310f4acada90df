use vstd::prelude::*;

verus! {

/// Whether `semver` accepts `text` as a version: `semver::Version::parse`
/// succeeds on it.
pub uninterp spec fn semver_version_parses(text: Seq<char>) -> bool;

/// Whether `semver` accepts `text` as a version requirement:
/// `semver::VersionReq::parse` succeeds on it.
pub uninterp spec fn semver_requirement_parses(text: Seq<char>) -> bool;

/// Calls `semver::Version::parse`. Its result is named, not stated: the
/// grammar it accepts (three numeric components without leading zeros, each
/// fitting a `u64`, optional pre-release and build identifiers of
/// `0-9A-Za-z-` separated by dots) is `semver`'s own.
#[verifier::external_body]
fn version_parses(text: &str) -> (r: bool)
    ensures
        r == semver_version_parses(text@),
{
    semver::Version::parse(text).is_ok()
}

/// Calls `semver::VersionReq::parse`. Its result is named, not stated: the
/// grammar of comparators it accepts is `semver`'s own.
#[verifier::external_body]
fn requirement_parses(text: &str) -> (r: bool)
    ensures
        r == semver_requirement_parses(text@),
{
    semver::VersionReq::parse(text).is_ok()
}

/// The `semver` string format: a value is valid when it is a SemVer
/// version.
pub fn semver(value: &str) -> (r: bool)
    ensures
        r == semver_version_parses(value@),
{
    version_parses(value)
}

/// The `semver-requirement` string format: a value is valid when it is a
/// SemVer version requirement.
pub fn semver_req(value: &str) -> (r: bool)
    ensures
        r == semver_requirement_parses(value@),
{
    requirement_parses(value)
}

} // verus!
