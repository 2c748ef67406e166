use quay::keyed::KeyedMap;
use quay::lock::{Lockfile, LOCKFILE_NAME, LOCKFILE_VERSION};
use quay::package::{PackageId, PackageName};
use quay::resolver::{Resolution, ResolvedPackage};
use quay::versions::SemanticVersion;

/// Build a resolution with one entry per `(name, version, tarball,
/// integrity)` tuple, keyed by name like the solver produces.
fn resolution(entries: &[(&str, &str, &str, Option<&str>)]) -> Resolution {
    let mut packages = KeyedMap::new();
    for (name, version, tarball, integrity) in entries {
        let pkg = ResolvedPackage {
            id: PackageId {
                name: PackageName::parse(name.to_string()).unwrap(),
                version: SemanticVersion::parse(version).unwrap(),
            },
            tarball: (*tarball).to_string(),
            integrity: integrity.map(str::to_string),
        };
        packages.insert(name.to_string(), pkg);
    }
    Resolution { packages }
}

#[test]
fn from_resolution_threads_tarball_and_integrity() {
    let res = resolution(&[(
        "left-pad",
        "1.3.0",
        "https://registry.npmjs.org/left-pad/-/left-pad-1.3.0.tgz",
        Some("sha512-deadbeef"),
    )]);

    let lock = Lockfile::from_resolution(&res);
    let entry = lock.packages.get("left-pad").unwrap();

    assert_eq!(entry.version, "1.3.0");
    assert_eq!(
        entry.resolved,
        "https://registry.npmjs.org/left-pad/-/left-pad-1.3.0.tgz"
    );
    assert_eq!(entry.integrity.as_deref(), Some("sha512-deadbeef"));
}

#[test]
fn missing_integrity_stays_none() {
    let res = resolution(&[(
        "no-hash",
        "0.1.0",
        "https://registry.example/no-hash-0.1.0.tgz",
        None,
    )]);

    let lock = Lockfile::from_resolution(&res);
    let entry = lock.packages.get("no-hash").unwrap();

    assert_eq!(entry.resolved, "https://registry.example/no-hash-0.1.0.tgz");
    assert_eq!(entry.integrity, None);
}

#[test]
fn lock_entries_do_not_depend_on_insertion_order() {
    let forward = resolution(&[
        ("a", "1.0.0", "https://r/a.tgz", Some("sha512-a")),
        ("b", "1.0.0", "https://r/b.tgz", Some("sha512-b")),
    ]);
    let reverse = resolution(&[
        ("b", "1.0.0", "https://r/b.tgz", Some("sha512-b")),
        ("a", "1.0.0", "https://r/a.tgz", Some("sha512-a")),
    ]);
    let one = Lockfile::from_resolution(&forward);
    let two = Lockfile::from_resolution(&reverse);
    assert_eq!(one.packages.len(), 2);
    assert_eq!(two.packages.len(), 2);
    for i in 0..2 {
        assert_eq!(one.packages.key_at(i), two.packages.key_at(i));
        let (x, y) = (one.packages.value_at(i), two.packages.value_at(i));
        assert_eq!(x.version, y.version);
        assert_eq!(x.resolved, y.resolved);
        assert_eq!(x.integrity, y.integrity);
    }
    assert_eq!(one.packages.key_at(0), "a");
    assert_eq!(one.packages.key_at(1), "b");
}

#[test]
fn lockfile_version_and_name() {
    let lock = Lockfile::from_resolution(&resolution(&[]));
    assert_eq!(lock.lockfile_version, 1);
    assert_eq!(LOCKFILE_VERSION, 1);
    assert_eq!(lock.packages.len(), 0);
    assert_eq!(LOCKFILE_NAME, "quay.lock");
}

#[test]
fn locked_version_is_written_like_semver() {
    let res = resolution(&[(
        "pre",
        "2.0.0-rc.1+build.7",
        "https://r/pre.tgz",
        None,
    )]);
    let lock = Lockfile::from_resolution(&res);
    assert_eq!(lock.packages.get("pre").unwrap().version, "2.0.0-rc.1+build.7");
}
