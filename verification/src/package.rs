//! Package identity: names (including scoped `@scope/name`) and resolved ids.

use vstd::prelude::*;

use crate::error::QuayError;
use crate::versions::{version_text, SemanticVersion};

verus! {

/// The longest package name npm accepts, in UTF-8 bytes.
pub const MAX_NAME_BYTES: usize = 214;

/// A name is accepted when it is non-empty and at most `MAX_NAME_BYTES` long
/// in UTF-8 (as `str::len` counts it).
pub open spec fn valid_package_name(s: Seq<char>) -> bool {
    s.len() > 0 && (vstd::utf8::encode_utf8(s).len() as usize) <= MAX_NAME_BYTES
}

/// The naming rule: a name is accepted exactly when it is non-empty and its
/// UTF-8 encoding (which fits in memory) is at most `MAX_NAME_BYTES` long; no
/// character is refused.
pub proof fn lemma_package_name_rule(s: Seq<char>)
    requires
        vstd::utf8::encode_utf8(s).len() <= usize::MAX,
    ensures
        valid_package_name(s) <==> (s.len() > 0 && vstd::utf8::encode_utf8(s).len() <= MAX_NAME_BYTES),
{
}

/// A validated npm-compatible package name, e.g. `lodash` or `@types/node`.
#[derive(Debug, Clone)]
pub struct PackageName(String);

impl View for PackageName {
    type V = Seq<char>;

    closed spec fn view(&self) -> Seq<char> {
        self.0@
    }
}

impl PackageName {
    /// Validates `s` as a package name.
    pub fn parse(s: String) -> (r: Result<PackageName, QuayError>)
        ensures
            r is Ok <==> valid_package_name(s@),
            vstd::utf8::encode_utf8(s@).len() <= usize::MAX ==> (r is Ok <==> (s@.len() > 0
                && vstd::utf8::encode_utf8(s@).len() <= MAX_NAME_BYTES)),
            r matches Ok(n) ==> n@ == s@,
            r matches Err(e) ==> e matches QuayError::InvalidPackageName(t) && t == s,
    {
        // Only emptiness and length are checked, not npm's full naming rules.
        if s.as_str().is_empty() || s.as_str().len() > MAX_NAME_BYTES {
            return Err(QuayError::InvalidPackageName(s));
        }
        Ok(PackageName(s))
    }

    /// The name as text.
    pub fn as_str(&self) -> (r: &str)
        ensures
            r@ == self@,
    {
        self.0.as_str()
    }

    /// The name as an owned string, as it is displayed.
    pub fn to_string(&self) -> (r: String)
        ensures
            r@ == self@,
    {
        self.0.clone()
    }

    /// `true` for `@scope/name` style names.
    pub fn is_scoped(&self) -> (r: bool)
        ensures
            r == (self@.len() > 0 && self@[0] == '@'),
    {
        let s = self.0.as_str();
        s.unicode_len() > 0 && s.get_char(0) == '@'
    }
}

/// `name@version`, the way packages are labelled in messages.
pub open spec fn label_text(name: Seq<char>, v: crate::versions::SemVer) -> Seq<char> {
    name + seq!['@'] + version_text(v)
}

/// Writes `name@version`.
pub fn label(name: &str, version: &SemanticVersion) -> (r: String)
    ensures
        r@ == label_text(name@, version@),
{
    let mut r = String::new();
    r.append(name);
    r.append("@");
    let v = version.to_string();
    r.append(v.as_str());
    proof {
        reveal_strlit("@");
    }
    r
}

/// A fully resolved package: a name pinned to an exact version.
#[derive(Debug, Clone)]
pub struct PackageId {
    pub name: PackageName,
    pub version: SemanticVersion,
}

impl PackageId {
    /// `name@version`.
    pub fn to_string(&self) -> (r: String)
        ensures
            r@ == label_text(self.name@, self.version@),
    {
        label(self.name.as_str(), &self.version)
    }
}

} // verus!
