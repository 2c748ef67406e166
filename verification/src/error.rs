//! The crate-wide error type. Variants are specific so callers can match.

use vstd::prelude::*;

use crate::versions::semver_error_text;

verus! {

#[verifier::external_type_specification]
#[verifier::external_body]
pub struct ExIoError(std::io::Error);

#[verifier::external_type_specification]
#[verifier::external_body]
pub struct ExJsonError(serde_json::Error);

/// Everything that can go wrong in Quay's core.
#[derive(Debug)]
pub enum QuayError {
    Manifest(String),
    InvalidPackageName(String),
    InvalidVersionReq(String, semver::Error),
    IntegrityMismatch { package: String, expected: String, actual: String },
    MalformedIntegrity(String, String),
    Io(std::io::Error),
    Json(serde_json::Error),
}

/// Calls `to_string` on a `std::io::Error`: the system's own message.
#[verifier::external_body]
fn io_error_text(e: &std::io::Error) -> String {
    e.to_string()
}

/// Calls `to_string` on a `serde_json::Error`: the parser's own message.
#[verifier::external_body]
fn json_error_text(e: &serde_json::Error) -> String {
    e.to_string()
}

/// `r` is the message for `e`: the fixed text of each variant with its
/// fields; for the variants that carry an error of `semver`, `std::io` or
/// `serde_json`, the fixed prefix (that error's own message follows it).
pub open spec fn describes(e: QuayError, r: Seq<char>) -> bool {
    match e {
        QuayError::Manifest(m) => r == "manifest error: "@ + m@,
        QuayError::InvalidPackageName(n) => r == "invalid package name: "@ + n@,
        QuayError::InvalidVersionReq(raw, _) => {
            let head = "invalid version requirement `"@ + raw@ + "`: "@;
            r.len() >= head.len() && r.take(head.len() as int) == head
        },
        QuayError::IntegrityMismatch { package, expected, actual } => r == "integrity check failed for `"@
            + package@ + "`: expected "@ + expected@ + ", got "@ + actual@,
        QuayError::MalformedIntegrity(s, why) => r == "malformed integrity string `"@ + s@ + "`: "@
            + why@,
        QuayError::Io(_) => r.len() >= 4 && r.take(4) == "io: "@,
        QuayError::Json(_) => r.len() >= 6 && r.take(6) == "json: "@,
    }
}

impl QuayError {
    /// The human-readable message for this error.
    pub fn to_string(&self) -> (r: String)
        ensures
            describes(*self, r@),
    {
        let mut r = String::new();
        match self {
            QuayError::Manifest(m) => {
                r.append("manifest error: ");
                r.append(m.as_str());
            },
            QuayError::InvalidPackageName(n) => {
                r.append("invalid package name: ");
                r.append(n.as_str());
            },
            QuayError::InvalidVersionReq(raw, e) => {
                r.append("invalid version requirement `");
                r.append(raw.as_str());
                r.append("`: ");
                let ghost head = r@;
                let msg = semver_error_text(e);
                r.append(msg.as_str());
                assert(r@.take(head.len() as int) =~= head);
            },
            QuayError::IntegrityMismatch { package, expected, actual } => {
                r.append("integrity check failed for `");
                r.append(package.as_str());
                r.append("`: expected ");
                r.append(expected.as_str());
                r.append(", got ");
                r.append(actual.as_str());
            },
            QuayError::MalformedIntegrity(s, why) => {
                r.append("malformed integrity string `");
                r.append(s.as_str());
                r.append("`: ");
                r.append(why.as_str());
            },
            QuayError::Io(e) => {
                r.append("io: ");
                proof {
                    reveal_strlit("io: ");
                }
                let ghost head = r@;
                let msg = io_error_text(e);
                r.append(msg.as_str());
                assert(r@.take(4) =~= head);
            },
            QuayError::Json(e) => {
                r.append("json: ");
                proof {
                    reveal_strlit("json: ");
                }
                let ghost head = r@;
                let msg = json_error_text(e);
                r.append(msg.as_str());
                assert(r@.take(6) =~= head);
            },
        }
        r
    }
}

} // verus!
