//! Semantic versions and version requirements. Parsing, ordering and matching
//! are the `semver` crate's; this module holds what the resolver reads of a
//! version as plain values and names what it asks `semver` to decide.

use vstd::prelude::*;

use crate::text::decimal;

verus! {

#[verifier::external_type_specification]
#[verifier::external_body]
pub struct ExSemverVersion(semver::Version);

#[verifier::external_type_specification]
#[verifier::external_body]
pub struct ExSemverVersionReq(semver::VersionReq);

#[verifier::external_type_specification]
#[verifier::external_body]
pub struct ExSemverError(semver::Error);

/// The fields of a semantic version: `major.minor.patch`, the pre-release
/// identifiers and the build metadata (each empty when absent).
pub struct SemVer {
    pub major: u64,
    pub minor: u64,
    pub patch: u64,
    pub pre: Seq<char>,
    pub build: Seq<char>,
}

/// What `semver::Version::parse` makes of `text`, field by field.
pub uninterp spec fn semver_parse(text: Seq<char>) -> Option<SemVer>;

/// `semver`'s total order on versions (`<` on `semver::Version`).
pub uninterp spec fn semver_lt(a: SemVer, b: SemVer) -> bool;

/// Whether `semver::VersionReq::parse` accepts `text`.
pub uninterp spec fn semver_req_parses(text: Seq<char>) -> bool;

/// Whether the requirement parsed from `text` matches the version `v`.
pub uninterp spec fn semver_req_matches(text: Seq<char>, v: SemVer) -> bool;

/// `(major, minor, patch)` of `a` is lexicographically below that of `b`.
pub open spec fn triple_lt(a: SemVer, b: SemVer) -> bool {
    ||| a.major < b.major
    ||| a.major == b.major && a.minor < b.minor
    ||| a.major == b.major && a.minor == b.minor && a.patch < b.patch
}

/// How `semver` writes a version: `major.minor.patch`, then `-pre` and
/// `+build` when those are non-empty.
pub open spec fn version_text(v: SemVer) -> Seq<char> {
    decimal(v.major as nat) + seq!['.'] + decimal(v.minor as nat) + seq!['.'] + decimal(
        v.patch as nat,
    ) + (if v.pre.len() > 0 {
        seq!['-'] + v.pre
    } else {
        Seq::empty()
    }) + (if v.build.len() > 0 {
        seq!['+'] + v.build
    } else {
        Seq::empty()
    })
}

/// Whether a requirement matches `v`. `None` stands for `VersionRequirement::STAR`,
/// which has no comparators and so matches exactly the versions without a
/// pre-release; `Some(text)` for the requirement parsed from `text`.
pub open spec fn req_matches(req: Option<Seq<char>>, v: SemVer) -> bool {
    match req {
        None => v.pre.len() == 0,
        Some(text) => semver_req_matches(text, v),
    }
}

/// A parsed semantic version.
#[derive(Debug)]
pub struct SemanticVersion {
    major: u64,
    minor: u64,
    patch: u64,
    pre: String,
    build: String,
    inner: semver::Version,
}

impl View for SemanticVersion {
    type V = SemVer;

    closed spec fn view(&self) -> SemVer {
        SemVer {
            major: self.major,
            minor: self.minor,
            patch: self.patch,
            pre: self.pre@,
            build: self.build@,
        }
    }
}

/// `semver::Version::clone` yields an equal version.
pub assume_specification[ <semver::Version as Clone>::clone ](v: &semver::Version) -> (r:
    semver::Version)
    ensures
        r == *v,
;

/// `semver::VersionReq::clone` yields an equal requirement.
pub assume_specification[ <semver::VersionReq as Clone>::clone ](r: &semver::VersionReq) -> (c:
    semver::VersionReq)
    ensures
        c == *r,
;

/// Calls `semver::Version::parse` and copies the fields of the result out as
/// plain values. Claims that the result is `semver_parse` of the text, and
/// that an accepted text is exactly how the version is written (the parser
/// takes no leading zeros, signs or spaces, and keeps the pre-release and
/// build texts as they stand).
#[verifier::external_body]
fn parse_with_semver(text: &str) -> (r: Result<SemanticVersion, semver::Error>)
    ensures
        r is Ok <==> semver_parse(text@) is Some,
        r matches Ok(v) ==> semver_parse(text@) == Some(v@),
        r matches Ok(v) ==> version_text(v@) == text@,
{
    match semver::Version::parse(text) {
        Ok(v) => Ok(
            SemanticVersion {
                major: v.major,
                minor: v.minor,
                patch: v.patch,
                pre: v.pre.as_str().to_string(),
                build: v.build.as_str().to_string(),
                inner: v,
            },
        ),
        Err(e) => Err(e),
    }
}

/// Calls `<` on `semver::Version`. Claims the result is `semver_lt`, and what
/// `Ord` (derived field by field on `Version`) documents of it: it is a strict
/// total order, so asymmetric, total on distinct versions and transitive, and
/// it orders first by `(major, minor, patch)`.
#[verifier::external_body]
fn lt_with_semver(a: &SemanticVersion, b: &SemanticVersion) -> (r: bool)
    ensures
        r == semver_lt(a@, b@),
        r ==> !semver_lt(b@, a@),
        !r && a@ != b@ ==> semver_lt(b@, a@),
        a@ == b@ ==> !r,
        forall|c: SemVer| r && semver_lt(b@, c) ==> semver_lt(a@, c),
        triple_lt(a@, b@) ==> r,
        triple_lt(b@, a@) ==> !r,
{
    a.inner < b.inner
}

/// Calls `to_string` on a `semver::Version`. Claims the `Display` format of
/// the `semver` source: `major.minor.patch[-pre][+build]`.
#[verifier::external_body]
fn text_with_semver(v: &SemanticVersion) -> (r: String)
    ensures
        r@ == version_text(v@),
{
    v.inner.to_string()
}

impl SemanticVersion {
    /// Parses a semantic version such as `1.2.3` or `1.0.0-beta.1+build.5`.
    pub fn parse(text: &str) -> (r: Result<SemanticVersion, semver::Error>)
        ensures
            r is Ok <==> semver_parse(text@) is Some,
            r matches Ok(v) ==> semver_parse(text@) == Some(v@),
            r matches Ok(v) ==> version_text(v@) == text@,
    {
        parse_with_semver(text)
    }

    /// `self` orders strictly before `other`.
    pub fn lt(&self, other: &SemanticVersion) -> (r: bool)
        ensures
            r == semver_lt(self@, other@),
            r ==> !semver_lt(other@, self@),
            !r && self@ != other@ ==> semver_lt(other@, self@),
            self@ == other@ ==> !r,
            forall|c: SemVer| r && semver_lt(other@, c) ==> semver_lt(self@, c),
            triple_lt(self@, other@) ==> r,
            triple_lt(other@, self@) ==> !r,
    {
        lt_with_semver(self, other)
    }

    /// The two versions are equal (`semver`'s derived `==`, field by field).
    pub fn same(&self, other: &SemanticVersion) -> (r: bool)
        ensures
            r == (self@ == other@),
    {
        self.major == other.major && self.minor == other.minor && self.patch == other.patch
            && self.pre == other.pre && self.build == other.build
    }

    /// The version as `semver` writes it, e.g. `1.3.0`.
    pub fn to_string(&self) -> (r: String)
        ensures
            r@ == version_text(self@),
    {
        text_with_semver(self)
    }

    /// Whether the version carries a pre-release tag.
    pub fn is_prerelease(&self) -> (r: bool)
        ensures
            r == (self@.pre.len() > 0),
    {
        self.pre.unicode_len() > 0
    }
}

impl Clone for SemanticVersion {
    fn clone(&self) -> (r: Self)
        ensures
            r == *self,
    {
        SemanticVersion {
            major: self.major,
            minor: self.minor,
            patch: self.patch,
            pre: self.pre.clone(),
            build: self.build.clone(),
            inner: self.inner.clone(),
        }
    }
}

/// A parsed version requirement such as `^1.2` or `>=1.0, <2`.
#[derive(Debug)]
pub struct VersionRequirement {
    inner: semver::VersionReq,
    source: Option<String>,
}

impl View for VersionRequirement {
    type V = Option<Seq<char>>;

    /// `None` for the requirement that accepts any release, otherwise the
    /// text the requirement was parsed from.
    closed spec fn view(&self) -> Option<Seq<char>> {
        match self.source {
            Some(s) => Some(s@),
            None => None,
        }
    }
}

/// Calls `semver::VersionReq::parse`. Claims it succeeds exactly when
/// `semver_req_parses` holds of the text, and records the text.
#[verifier::external_body]
fn parse_req_with_semver(text: &str) -> (r: Result<VersionRequirement, semver::Error>)
    ensures
        r is Ok <==> semver_req_parses(text@),
        r matches Ok(q) ==> q@ == Some(text@),
{
    match semver::VersionReq::parse(text) {
        Ok(inner) => Ok(VersionRequirement { inner, source: Some(text.to_string()) }),
        Err(e) => Err(e),
    }
}

/// Builds `semver::VersionReq::STAR`.
#[verifier::external_body]
fn star_with_semver() -> (r: VersionRequirement)
    ensures
        r@ is None,
{
    VersionRequirement { inner: semver::VersionReq::STAR, source: None }
}

/// Calls `semver::VersionReq::matches`. Claims the result is `req_matches`:
/// for `STAR` (no comparators) the `semver` source accepts exactly the
/// versions without a pre-release; otherwise the result is named.
#[verifier::external_body]
fn matches_with_semver(req: &VersionRequirement, v: &SemanticVersion) -> (r: bool)
    ensures
        req@ is None ==> r == (v@.pre.len() == 0),
        req@ matches Some(text) ==> r == semver_req_matches(text, v@),
{
    req.inner.matches(&v.inner)
}

/// Calls `to_string` on a `semver::Error`: the parser's own message.
#[verifier::external_body]
pub(crate) fn semver_error_text(e: &semver::Error) -> String {
    e.to_string()
}

impl VersionRequirement {
    /// Parses a requirement with `semver`.
    pub fn parse(text: &str) -> (r: Result<VersionRequirement, semver::Error>)
        ensures
            r is Ok <==> semver_req_parses(text@),
            r matches Ok(q) ==> q@ == Some(text@),
    {
        parse_req_with_semver(text)
    }

    /// The requirement with no comparators (`*`).
    pub fn any() -> (r: VersionRequirement)
        ensures
            r@ is None,
    {
        star_with_semver()
    }

    /// Whether `v` satisfies this requirement.
    pub fn matches(&self, v: &SemanticVersion) -> (r: bool)
        ensures
            r == req_matches(self@, v@),
    {
        matches_with_semver(self, v)
    }
}

impl Clone for VersionRequirement {
    fn clone(&self) -> (r: Self)
        ensures
            r == *self,
    {
        VersionRequirement { inner: self.inner.clone(), source: self.source.clone() }
    }
}

} // verus!
