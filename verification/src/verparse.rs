//! The two calls into the semver crate: parsing a version and checking a
//! version-requirement expression. Everything else about versions is proved
//! in `version`.
use vstd::prelude::*;

verus! {

use crate::version::Version;

/// What `semver::Version::parse` yields on a text, decomposed into plain
/// values: major, minor, patch, pre-release text and build text; `None`
/// when the text is not a valid semantic version.
pub uninterp spec fn semver_parse(s: Seq<char>) -> Option<(u64, u64, u64, Seq<u8>, Seq<u8>)>;

/// Whether `semver::VersionReq::parse` accepts the text as a version-range
/// expression.
pub uninterp spec fn req_parse_ok(s: Seq<char>) -> bool;

/// Relies on semver::Version::parse: the outcome depends on the text alone,
/// and on success the parsed field values are handed out unchanged.
#[verifier::external_body]
pub(crate) fn parse_version(s: &str) -> (r: Option<Version>)
    ensures
        match r {
            Some(v) => semver_parse(s@) == Some::<(u64, u64, u64, Seq<u8>, Seq<u8>)>(
                (v.major, v.minor, v.patch, v.pre@, v.build@),
            ),
            None => semver_parse(s@) is None,
        },
{
    match semver::Version::parse(s) {
        Ok(v) => Some(Version {
            major: v.major,
            minor: v.minor,
            patch: v.patch,
            pre: v.pre.as_str().as_bytes().to_vec(),
            build: v.build.as_str().as_bytes().to_vec(),
        }),
        Err(_) => None,
    }
}

/// Relies on semver::VersionReq::parse: whether the text is a valid range
/// expression depends on the text alone.
#[verifier::external_body]
pub(crate) fn version_req_ok(s: &str) -> (r: bool)
    ensures
        r == req_parse_ok(s@),
{
    semver::VersionReq::parse(s).is_ok()
}

} // verus!
