//! Semantic versions, as far as scoring reads them.
use vstd::prelude::*;

verus! {

/// The parts of a semantic version that enter a score.
#[derive(Clone, Copy, Debug, PartialEq, Eq, Structural)]
pub struct ParsedVersion {
    pub major: u64,
    pub minor: u64,
    pub patch: u64,
    /// Whether the version is a stable release, that is, has no pre-release
    /// part.
    pub stable: bool,
}

/// What `semver::Version::parse` makes of `text`: the parts of the version,
/// or `None` where `text` is not a semantic version.
pub uninterp spec fn semver_of(text: Seq<char>) -> Option<ParsedVersion>;

/// `semver::Version::parse`, reduced to the parts that scoring reads. The
/// result depends on `text` alone; `stable` is `Prerelease::is_empty` of the
/// parsed version.
#[verifier::external_body]
pub(crate) fn parse_version(text: &str) -> (parsed: Option<ParsedVersion>)
    ensures
        parsed == semver_of(text@),
{
    match semver::Version::parse(text) {
        Ok(version) => Some(
            ParsedVersion {
                major: version.major,
                minor: version.minor,
                patch: version.patch,
                stable: version.pre.is_empty(),
            },
        ),
        Err(_) => None,
    }
}

} // verus!
