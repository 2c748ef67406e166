use std::collections::BTreeMap;

use quay::fetch::Fetcher;
use quay::keyed::KeyedMap;
use quay::registry::{Dist, Packument, VersionMeta};
use quay::resolver::{parse_req, resolve, Conflict, ConflictingRequirement, Resolution, ResolveError};

/// An in-memory package source: hands back canned packuments with no network
/// access. Unknown names fail like a 404 would.
#[derive(Default)]
struct MockSource {
    packuments: BTreeMap<String, Packument>,
}

impl MockSource {
    fn with(mut self, packument: Packument) -> Self {
        self.packuments.insert(packument.name.clone(), packument);
        self
    }

    fn packument(&self, name: &str) -> Result<Packument, String> {
        self.packuments
            .get(name)
            .cloned()
            .ok_or_else(|| format!("no such package: {name}"))
    }
}

/// Build a packument with one or more versions. Each `version` is
/// `(version, &[(dep_name, dep_req)])`.
fn packument(name: &str, versions: &[(&str, &[(&str, &str)])]) -> Packument {
    let mut map = KeyedMap::new();
    for (version, deps) in versions {
        let mut dependencies = KeyedMap::new();
        for (dn, dr) in *deps {
            dependencies.insert((*dn).to_string(), (*dr).to_string());
        }
        map.insert(
            (*version).to_string(),
            VersionMeta {
                version: (*version).to_string(),
                dependencies,
                dist: Dist {
                    tarball: format!("https://registry.example/{name}-{version}.tgz"),
                    integrity: Some(format!("sha512-{name}-{version}")),
                },
            },
        );
    }
    Packument {
        name: name.to_string(),
        versions: map,
    }
}

/// Why a whole resolution run failed.
#[derive(Debug)]
enum RunError {
    Source(String),
    Resolve(ResolveError),
}

/// The whole pipeline against a mock source: requirements are checked first,
/// then every reachable packument is fetched, then the solver runs.
fn run(source: &MockSource, direct: &[(String, String)]) -> Result<Resolution, RunError> {
    for (_, raw) in direct {
        if let Err(e) = parse_req(raw) {
            return Err(RunError::Resolve(ResolveError::Invalid(e)));
        }
    }
    let roots: Vec<String> = direct.iter().map(|(n, _)| n.clone()).collect();
    let mut fetcher = Fetcher::new(&roots);
    while let Some(name) = fetcher.next_request() {
        let p = source.packument(&name).map_err(RunError::Source)?;
        fetcher.record(p);
    }
    let cache = fetcher.finish().expect("no request is pending");
    resolve(&direct.to_vec(), &cache).map_err(RunError::Resolve)
}

/// Convenience: assert a package resolved to an exact version.
fn assert_pinned(res: &Resolution, name: &str, version: &str) {
    let pkg = res
        .packages
        .get(name)
        .unwrap_or_else(|| panic!("`{name}` should be in the resolution"));
    assert_eq!(pkg.id.version.to_string(), version, "version of {name}");
    assert_eq!(pkg.id.name.as_str(), name);
    assert_eq!(
        pkg.tarball,
        format!("https://registry.example/{name}-{version}.tgz")
    );
    assert_eq!(
        pkg.integrity.as_deref(),
        Some(&*format!("sha512-{name}-{version}"))
    );
}

#[test]
fn mock_source_serves_canned_packuments() {
    let source = MockSource::default().with(packument("left-pad", &[("1.3.0", &[])]));

    let pkg = source.packument("left-pad").unwrap();
    assert_eq!(pkg.name, "left-pad");
    assert!(pkg.versions.get("1.3.0").is_some());

    // Unknown packages error rather than hitting the network.
    assert!(source.packument("does-not-exist").is_err());
}

#[test]
fn resolves_a_single_direct_dep() {
    let source = MockSource::default().with(packument(
        "left-pad",
        &[("1.2.0", &[]), ("1.3.0", &[]), ("2.0.0", &[])],
    ));

    let res = run(&source, &[("left-pad".into(), "^1.0.0".into())]).unwrap();

    assert_eq!(res.packages.len(), 1);
    assert_pinned(&res, "left-pad", "1.3.0");
}

#[test]
fn resolves_a_simple_transitive_tree() {
    let source = MockSource::default()
        .with(packument("a", &[("1.0.0", &[("b", "^1.0.0")])]))
        .with(packument("b", &[("1.0.0", &[("c", "^1.0.0")])]))
        .with(packument("c", &[("1.5.0", &[])]));

    let res = run(&source, &[("a".into(), "^1.0.0".into())]).unwrap();

    assert_eq!(res.packages.len(), 3);
    assert_pinned(&res, "a", "1.0.0");
    assert_pinned(&res, "b", "1.0.0");
    assert_pinned(&res, "c", "1.5.0");
}

#[test]
fn shares_a_transitive_dep_across_requirers() {
    let source = MockSource::default()
        .with(packument("a", &[("1.0.0", &[("shared", "^1.0.0")])]))
        .with(packument("b", &[("1.0.0", &[("shared", ">=1.1.0")])]))
        .with(packument(
            "shared",
            &[("1.0.0", &[]), ("1.2.0", &[]), ("1.5.0", &[])],
        ));

    let res = run(
        &source,
        &[("a".into(), "^1.0.0".into()), ("b".into(), "^1.0.0".into())],
    )
    .unwrap();

    assert_eq!(res.packages.len(), 3);
    // Highest version satisfying both ^1.0.0 and >=1.1.0.
    assert_pinned(&res, "shared", "1.5.0");
}

#[test]
fn reports_a_version_conflict() {
    let source = MockSource::default()
        .with(packument("a", &[("1.0.0", &[("b", "^1.0.0")])]))
        .with(packument("c", &[("1.0.0", &[("b", "^2.0.0")])]))
        .with(packument("b", &[("1.0.0", &[]), ("2.0.0", &[])]));

    let err = run(
        &source,
        &[("a".into(), "^1.0.0".into()), ("c".into(), "^1.0.0".into())],
    )
    .unwrap_err();

    let conflict = match &err {
        RunError::Resolve(ResolveError::Conflict(c)) => c,
        other => panic!("a version conflict should surface as a Conflict, got {other:?}"),
    };
    assert_eq!(conflict.package, "b");

    // Both sides of the conflict are named, with their requesters.
    let msg = conflict.to_string();
    assert!(msg.contains("`b`"), "names the package: {msg}");
    assert!(msg.contains("a@1.0.0 needs ^1.0.0"), "names side one: {msg}");
    assert!(msg.contains("c@1.0.0 needs ^2.0.0"), "names side two: {msg}");
}

#[test]
fn resolves_a_dependency_cycle() {
    let source = MockSource::default()
        .with(packument("a", &[("1.0.0", &[("b", "^1.0.0")])]))
        .with(packument("b", &[("1.0.0", &[("a", "^1.0.0")])]));

    let res = run(&source, &[("a".into(), "^1.0.0".into())]).unwrap();

    assert_eq!(res.packages.len(), 2);
    assert_pinned(&res, "a", "1.0.0");
    assert_pinned(&res, "b", "1.0.0");
}

#[test]
fn backtracks_to_an_older_compatible_version() {
    // app depends on a (any) and on b@1.0.0.
    // a@2.0.0 needs b@^2 (incompatible), a@1.0.0 needs b@^1 (ok).
    let source = MockSource::default()
        .with(packument(
            "a",
            &[("1.0.0", &[("b", "^1.0.0")]), ("2.0.0", &[("b", "^2.0.0")])],
        ))
        .with(packument("b", &[("1.0.0", &[]), ("2.0.0", &[])]));

    let res = run(
        &source,
        &[("a".into(), "*".into()), ("b".into(), "1.0.0".into())],
    )
    .unwrap();

    assert_pinned(&res, "a", "1.0.0");
    assert_pinned(&res, "b", "1.0.0");
}

#[test]
fn rejects_an_unparseable_requirement() {
    let source = MockSource::default().with(packument("a", &[("1.0.0", &[])]));
    let err = run(&source, &[("a".into(), "not-a-range".into())]).unwrap_err();
    let msg = match &err {
        RunError::Resolve(e) => e.to_string(),
        RunError::Source(s) => s.clone(),
    };
    assert!(msg.contains("invalid version requirement"));
}

#[test]
fn resolve_itself_rejects_an_unparseable_requirement_first() {
    // Even with an empty cache, the bad range is reported, not a conflict.
    let cache = KeyedMap::new();
    let direct = vec![
        ("a".to_string(), "^1.0.0".to_string()),
        ("b".to_string(), ">>1".to_string()),
    ];
    let err = resolve(&direct, &cache).unwrap_err();
    let msg = err.to_string();
    assert!(msg.starts_with("invalid version requirement `>>1`: "), "{msg}");
}

#[test]
fn missing_packument_is_a_conflict_naming_the_root() {
    let cache = KeyedMap::new();
    let direct = vec![("ghost".to_string(), "^1.0.0".to_string())];
    match resolve(&direct, &cache) {
        Err(ResolveError::Conflict(c)) => {
            assert_eq!(c.package, "ghost");
            assert_eq!(
                c.to_string(),
                "no version of `ghost` satisfies all requirements: (root) needs ^1.0.0"
            );
        }
        other => panic!("expected a conflict, got {other:?}"),
    }
}

#[test]
fn empty_manifest_resolves_to_nothing() {
    let cache = KeyedMap::new();
    let res = resolve(&Vec::new(), &cache).unwrap();
    assert_eq!(res.packages.len(), 0);
}

#[test]
fn star_latest_and_empty_mean_any_release() {
    let source = MockSource::default()
        .with(packument("x", &[("1.0.0", &[]), ("3.1.4", &[]), ("4.0.0-beta.1", &[])]))
        .with(packument("y", &[("0.2.0", &[]), ("0.9.0", &[])]))
        .with(packument("z", &[("2.0.0", &[])]));
    let res = run(
        &source,
        &[
            ("x".into(), "latest".into()),
            ("y".into(), "".into()),
            ("z".into(), " * ".into()),
        ],
    )
    .unwrap();
    // Pre-releases are not "any release".
    assert_eq!(res.packages.get("x").unwrap().id.version.to_string(), "3.1.4");
    assert_eq!(res.packages.get("y").unwrap().id.version.to_string(), "0.9.0");
    assert_eq!(res.packages.get("z").unwrap().id.version.to_string(), "2.0.0");
}

#[test]
fn unparseable_dependency_range_fails_the_candidate() {
    let source = MockSource::default()
        .with(packument("a", &[("1.0.0", &[("b", "what?")])]))
        .with(packument("b", &[("1.0.0", &[])]));
    match run(&source, &[("a".into(), "^1".into())]) {
        Err(RunError::Resolve(ResolveError::Conflict(c))) => {
            assert_eq!(c.package, "a");
            assert_eq!(
                c.to_string(),
                "no version of `a` satisfies all requirements: (root) needs ^1"
            );
        }
        other => panic!("expected a conflict on `a`, got {other:?}"),
    }
}

#[test]
fn unparseable_dependency_range_falls_back_to_an_older_version() {
    let source = MockSource::default()
        .with(packument(
            "a",
            &[("1.0.0", &[("b", "^1")]), ("1.1.0", &[("b", "what?")])],
        ))
        .with(packument("b", &[("1.0.0", &[])]));
    let res = run(&source, &[("a".into(), "^1".into())]).unwrap();
    assert_eq!(res.packages.get("a").unwrap().id.version.to_string(), "1.0.0");
    assert_eq!(res.packages.get("b").unwrap().id.version.to_string(), "1.0.0");
}

#[test]
fn parse_req_trims_and_keeps_the_text() {
    assert!(parse_req("  ^1.2.0 ").is_ok());
    assert!(parse_req("").is_ok());
    assert!(parse_req("latest").is_ok());
    assert!(parse_req("*").is_ok());
    let err = parse_req("not-a-range").unwrap_err();
    assert!(err
        .to_string()
        .starts_with("invalid version requirement `not-a-range`: "));
}

#[test]
fn conflict_text_joins_requirements() {
    let c = Conflict {
        package: "b".to_string(),
        requirements: vec![
            ConflictingRequirement {
                requester: "a@1.0.0".to_string(),
                range: "^1.0.0".to_string(),
            },
            ConflictingRequirement {
                requester: "c@1.0.0".to_string(),
                range: "^2.0.0".to_string(),
            },
        ],
    };
    assert_eq!(
        c.to_string(),
        "no version of `b` satisfies all requirements: a@1.0.0 needs ^1.0.0, c@1.0.0 needs ^2.0.0"
    );
    let none = Conflict {
        package: "q".to_string(),
        requirements: Vec::new(),
    };
    assert_eq!(none.to_string(), "no version of `q` satisfies all requirements: ");
}
