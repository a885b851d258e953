//! Semantic-version checks, made by the `semver` crate.

use vstd::prelude::*;
use crate::executor::RunError;

verus! {

#[verifier::external_type_specification]
#[verifier::external_body]
pub struct ExVersionReq(semver::VersionReq);

#[verifier::external_type_specification]
#[verifier::external_body]
pub struct ExVersion(semver::Version);

#[verifier::external_type_specification]
#[verifier::external_body]
pub struct ExSemverError(semver::Error);

/// Whether `semver::VersionReq::parse` accepts the text.
pub uninterp spec fn requirement_parses(s: Seq<char>) -> bool;

/// Whether `semver::Version::parse` accepts the text.
pub uninterp spec fn version_parses(s: Seq<char>) -> bool;

/// Relies on `semver::VersionReq::parse`, whose outcome depends on the text
/// alone.
#[verifier::external_body]
fn parse_requirement(s: &str) -> (r: Result<semver::VersionReq, semver::Error>)
    ensures
        r is Ok == requirement_parses(s@),
{
    semver::VersionReq::parse(s)
}

/// Relies on `semver::Version::parse`, whose outcome depends on the text
/// alone.
#[verifier::external_body]
fn parse_version(s: &str) -> (r: Result<semver::Version, semver::Error>)
    ensures
        r is Ok == version_parses(s@),
{
    semver::Version::parse(s)
}

/// Whether `semver::VersionReq::matches` accepts the version parsed from
/// the second text under the requirement parsed from the first.
pub uninterp spec fn semver_matches(requirement: Seq<char>, version: Seq<char>) -> bool;

/// Relies on `semver::VersionReq::matches`, applied to the values that
/// `VersionReq::parse` and `Version::parse` make of the two texts; the
/// outcome depends on the texts alone.
#[verifier::external_body]
fn requirement_matches(requirement: &str, version: &str) -> (r: bool)
    requires
        requirement_parses(requirement@),
        version_parses(version@),
    ensures
        r == semver_matches(requirement@, version@),
{
    match (semver::VersionReq::parse(requirement), semver::Version::parse(version)) {
        (Ok(req), Ok(ver)) => req.matches(&ver),
        _ => false,
    }
}

/// Why a version check could not be made.
#[derive(PartialEq, Eq, Structural, Clone, Copy, Debug)]
pub enum VersionError {
    /// The requirement is not valid semver requirement syntax.
    BadRequirement,
    /// The version is not a valid semver version.
    BadVersion,
}

/// Whether `version` satisfies `requirement`; an error when either text
/// does not parse, the requirement checked first.
pub fn satisfies(requirement: &str, version: &str) -> (r: Result<bool, VersionError>)
    ensures
        !requirement_parses(requirement@) ==> r == Err::<bool, VersionError>(VersionError::BadRequirement),
        requirement_parses(requirement@) && !version_parses(version@) ==> r == Err::<bool, VersionError>(
            VersionError::BadVersion,
        ),
        requirement_parses(requirement@) && version_parses(version@) ==> r == Ok::<bool, VersionError>(
            semver_matches(requirement@, version@),
        ),
{
    if parse_requirement(requirement).is_err() {
        return Err(VersionError::BadRequirement);
    }
    if parse_version(version).is_err() {
        return Err(VersionError::BadVersion);
    }
    Ok(requirement_matches(requirement, version))
}

/// The verdict on a workflow's engine requirement given the outcome of the
/// check: only a satisfied requirement lets the run go on.
pub fn engine_verdict(outcome: Result<bool, VersionError>) -> (r: Result<(), RunError>)
    ensures
        r is Ok <==> outcome == Ok::<bool, VersionError>(true),
        r is Err ==> r == Err::<(), RunError>(RunError::VersionMismatch),
{
    match outcome {
        Ok(true) => Ok(()),
        _ => Err(RunError::VersionMismatch),
    }
}

/// Checks the engine version `engine` against a workflow's requirement
/// `required`. A requirement or version that does not parse is a mismatch.
pub fn check_engine_version(required: &str, engine: &str) -> (r: Result<(), RunError>)
    ensures
        r is Err ==> r == Err::<(), RunError>(RunError::VersionMismatch),
        r is Ok <==> requirement_parses(required@) && version_parses(engine@) && semver_matches(required@, engine@),
{
    engine_verdict(satisfies(required, engine))
}

} // verus!
