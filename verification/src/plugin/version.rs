use vstd::prelude::*;

verus! {

/// A semantic version of the `semver` crate, carried through unread.
#[verifier::external_type_specification]
#[verifier::external_body]
pub struct ExSemverVersion(semver::Version);

/// A version requirement of the `semver` crate, carried through unread.
#[verifier::external_type_specification]
#[verifier::external_body]
pub struct ExSemverVersionReq(semver::VersionReq);

/// Whether `semver::Version::parse` accepts the text.
pub uninterp spec fn version_parses(text: Seq<char>) -> bool;

/// Whether the version read from `a` is lower than the one read from `b` in
/// `semver::Version`'s order (major, minor, patch, pre-release, build).
pub uninterp spec fn version_lower(a: Seq<char>, b: Seq<char>) -> bool;

/// Whether `semver::VersionReq::parse` accepts the text.
pub uninterp spec fn requirement_parses(text: Seq<char>) -> bool;

/// Whether the requirement read from `req` matches the version read from
/// `version` (`semver::VersionReq::matches`).
pub uninterp spec fn requirement_matches(req: Seq<char>, version: Seq<char>) -> bool;

/// A semantic version together with the text it was read from.
pub struct ParsedVersion {
    text: String,
    inner: semver::Version,
}

impl View for ParsedVersion {
    type V = Seq<char>;

    closed spec fn view(&self) -> Seq<char> {
        self.text@
    }
}

/// A version requirement together with the text it was read from.
pub struct ParsedRequirement {
    text: String,
    inner: semver::VersionReq,
}

impl View for ParsedRequirement {
    type V = Seq<char>;

    closed spec fn view(&self) -> Seq<char> {
        self.text@
    }
}

/// Reads a semantic version with `semver::Version::parse`; the error is the
/// crate's description of what is wrong.
#[verifier::external_body]
pub(crate) fn parse_version(text: &str) -> (r: Result<ParsedVersion, String>)
    ensures
        r is Ok <==> version_parses(text@),
        r matches Ok(v) ==> v@ == text@,
{
    match semver::Version::parse(text) {
        Ok(inner) => Ok(ParsedVersion { text: text.to_string(), inner }),
        Err(e) => Err(e.to_string()),
    }
}

/// Whether `a` is lower than `b` (`<` of `semver::Version`). A version is not
/// lower than one read from the same text.
#[verifier::external_body]
pub(crate) fn is_lower(a: &ParsedVersion, b: &ParsedVersion) -> (r: bool)
    ensures
        r == version_lower(a@, b@),
        a@ == b@ ==> !r,
{
    a.inner < b.inner
}

/// Reads a version requirement with `semver::VersionReq::parse`; the error is
/// the crate's description of what is wrong.
#[verifier::external_body]
pub(crate) fn parse_requirement(text: &str) -> (r: Result<ParsedRequirement, String>)
    ensures
        r is Ok <==> requirement_parses(text@),
        r matches Ok(q) ==> q@ == text@,
{
    match semver::VersionReq::parse(text) {
        Ok(inner) => Ok(ParsedRequirement { text: text.to_string(), inner }),
        Err(e) => Err(e.to_string()),
    }
}

/// Whether the requirement matches the version (`semver::VersionReq::matches`).
#[verifier::external_body]
pub(crate) fn matches_requirement(req: &ParsedRequirement, version: &ParsedVersion) -> (r: bool)
    ensures
        r == requirement_matches(req@, version@),
{
    req.inner.matches(&version.inner)
}

} // verus!
