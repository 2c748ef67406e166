//! The registry's metadata model: what an npm-compatible registry says about a
//! package (its "packument"), trimmed to the fields the resolver needs.

use vstd::prelude::*;

use crate::keyed::KeyedMap;

verus! {

/// The public npm registry.
pub const DEFAULT_REGISTRY: &'static str = "https://registry.npmjs.org";

/// Where a version's tarball lives and how to check it.
#[derive(Debug, Clone)]
pub struct Dist {
    pub tarball: String,
    /// Integrity hash (e.g. `sha512-...`), used to verify downloads.
    pub integrity: Option<String>,
}

/// One published version of a package.
#[derive(Debug, Clone)]
pub struct VersionMeta {
    pub version: String,
    /// Dependency name to requirement, in key order.
    pub dependencies: KeyedMap<String>,
    pub dist: Dist,
}

/// The registry's metadata document for a package.
#[derive(Debug, Clone)]
pub struct Packument {
    pub name: String,
    /// Version string to metadata, in key order.
    pub versions: KeyedMap<VersionMeta>,
}

/// The address of `name`'s packument under the registry at `base_url`.
pub fn packument_url(base_url: &str, name: &str) -> (r: String)
    ensures
        r@ == base_url@ + seq!['/'] + name@,
{
    let mut r = String::new();
    r.append(base_url);
    r.append("/");
    r.append(name);
    proof {
        reveal_strlit("/");
    }
    r
}

} // verus!
