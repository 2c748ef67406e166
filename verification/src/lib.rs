//! Quay's verified core: package identities, manifests, the walk that
//! gathers packuments, version resolution, the lockfile model and the
//! content-addressed store's integrity checks.

pub mod error;
pub mod fetch;
pub mod keyed;
pub mod lock;
pub mod manifest;
pub mod package;
pub mod registry;
pub mod resolver;
pub mod solver;
pub mod store;
pub mod text;
pub mod versions;
