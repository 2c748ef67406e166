use quay::error::QuayError;
use quay::fetch::Fetcher;
use quay::keyed::KeyedMap;
use quay::manifest::Manifest;
use quay::package::{PackageId, PackageName, MAX_NAME_BYTES};
use quay::registry::{packument_url, Dist, Packument, VersionMeta, DEFAULT_REGISTRY};
use quay::versions::{SemanticVersion, VersionRequirement};

#[test]
fn package_names_are_validated_by_length() {
    assert!(PackageName::parse(String::new()).is_err());
    assert!(PackageName::parse("a".repeat(MAX_NAME_BYTES)).is_ok());
    match PackageName::parse("a".repeat(MAX_NAME_BYTES + 1)) {
        Err(QuayError::InvalidPackageName(s)) => assert_eq!(s.len(), 215),
        other => panic!("expected InvalidPackageName, got {other:?}"),
    }
    // The limit counts UTF-8 bytes: 108 two-byte characters are too long.
    assert!(PackageName::parse("é".repeat(107)).is_ok());
    assert!(PackageName::parse("é".repeat(108)).is_err());
}

#[test]
fn package_name_text_and_scope() {
    let plain = PackageName::parse("lodash".to_string()).unwrap();
    assert_eq!(plain.as_str(), "lodash");
    assert!(!plain.is_scoped());
    let scoped = PackageName::parse("@types/node".to_string()).unwrap();
    assert_eq!(scoped.as_str(), "@types/node");
    assert!(scoped.is_scoped());
}

#[test]
fn package_id_is_written_name_at_version() {
    let id = PackageId {
        name: PackageName::parse("@scope/pkg".to_string()).unwrap(),
        version: SemanticVersion::parse("1.2.3-alpha.1").unwrap(),
    };
    assert_eq!(id.to_string(), "@scope/pkg@1.2.3-alpha.1");
}

#[test]
fn error_messages() {
    assert_eq!(
        QuayError::Manifest("bad".to_string()).to_string(),
        "manifest error: bad"
    );
    assert_eq!(
        QuayError::InvalidPackageName(String::new()).to_string(),
        "invalid package name: "
    );
    assert_eq!(
        QuayError::IntegrityMismatch {
            package: "p".to_string(),
            expected: "sha512-a".to_string(),
            actual: "sha512-b".to_string(),
        }
        .to_string(),
        "integrity check failed for `p`: expected sha512-a, got sha512-b"
    );
    assert_eq!(
        QuayError::MalformedIntegrity("x".to_string(), "why".to_string()).to_string(),
        "malformed integrity string `x`: why"
    );
    let io = std::io::Error::new(std::io::ErrorKind::NotFound, "gone");
    assert_eq!(QuayError::Io(io).to_string(), "io: gone");
    let json = serde_json::from_str::<serde_json::Value>("{").unwrap_err();
    assert!(QuayError::Json(json).to_string().starts_with("json: "));
    let semver_err = semver::VersionReq::parse("not-a-range").unwrap_err();
    let expected = format!("invalid version requirement `not-a-range`: {semver_err}");
    assert_eq!(
        QuayError::InvalidVersionReq("not-a-range".to_string(), semver_err).to_string(),
        expected
    );
}

fn map(pairs: &[(&str, &str)]) -> KeyedMap<String> {
    let mut m = KeyedMap::new();
    for (k, v) in pairs {
        m.insert(k.to_string(), v.to_string());
    }
    m
}

#[test]
fn all_dependencies_lists_runtime_then_dev() {
    let mut m = Manifest::default();
    m.dependencies = map(&[("zeta", "^1"), ("alpha", "~2.0")]);
    m.dev_dependencies = map(&[("mocha", "*")]);
    let all = m.all_dependencies();
    assert_eq!(
        all,
        vec![
            ("alpha".to_string(), "~2.0".to_string()),
            ("zeta".to_string(), "^1".to_string()),
            ("mocha".to_string(), "*".to_string()),
        ]
    );
}

#[test]
fn scripts_are_looked_up_by_name() {
    let mut m = Manifest::default();
    m.scripts = map(&[("test", "jest"), ("build", "tsc")]);
    assert_eq!(m.script("build").as_deref(), Some("tsc"));
    assert_eq!(m.script("lint"), None);
}

#[test]
fn default_manifest_is_empty() {
    let m = Manifest::default();
    assert!(m.name.is_none() && m.version.is_none());
    assert!(m.all_dependencies().is_empty());
    assert_eq!(m.extra.len(), 0);
}

#[test]
fn keyed_map_keeps_keys_sorted_and_replaces() {
    let mut m = KeyedMap::new();
    m.insert("b".to_string(), 2);
    m.insert("a".to_string(), 1);
    m.insert("c".to_string(), 3);
    m.insert("b".to_string(), 20);
    assert_eq!(m.len(), 3);
    assert_eq!(m.key_at(0), "a");
    assert_eq!(m.key_at(1), "b");
    assert_eq!(m.key_at(2), "c");
    assert_eq!(m.get("b"), Some(&20));
    assert_eq!(m.get("d"), None);
    assert_eq!(m.index_of("c"), Some(2));
    let copy = m.clone();
    assert_eq!(copy.get("a"), Some(&1));
    assert_eq!(copy.len(), 3);
}

#[test]
fn packument_url_joins_with_a_slash() {
    assert_eq!(
        packument_url(DEFAULT_REGISTRY, "left-pad"),
        "https://registry.npmjs.org/left-pad"
    );
    assert_eq!(
        packument_url("http://localhost:4873", "@types/node"),
        "http://localhost:4873/@types/node"
    );
}

#[test]
fn semantic_versions_compare_and_print() {
    let a = SemanticVersion::parse("1.2.3").unwrap();
    let b = SemanticVersion::parse("1.10.0").unwrap();
    let pre = SemanticVersion::parse("1.10.0-beta").unwrap();
    assert!(a.lt(&b));
    assert!(!b.lt(&a));
    assert!(pre.lt(&b));
    assert!(pre.is_prerelease());
    assert!(!a.is_prerelease());
    assert!(a.same(&a.clone()));
    assert_eq!(b.to_string(), "1.10.0");
    assert!(SemanticVersion::parse("1.2").is_err());
}

#[test]
fn version_requirements_match() {
    let caret = VersionRequirement::parse("^1.2").unwrap();
    assert!(caret.matches(&SemanticVersion::parse("1.9.0").unwrap()));
    assert!(!caret.matches(&SemanticVersion::parse("2.0.0").unwrap()));
    let any = VersionRequirement::any();
    assert!(any.matches(&SemanticVersion::parse("0.0.1").unwrap()));
    assert!(!any.matches(&SemanticVersion::parse("1.0.0-rc.1").unwrap()));
}

fn meta(version: &str, deps: &[(&str, &str)]) -> VersionMeta {
    VersionMeta {
        version: version.to_string(),
        dependencies: map(deps),
        dist: Dist {
            tarball: format!("https://r/{version}.tgz"),
            integrity: None,
        },
    }
}

fn pkg(name: &str, versions: &[(&str, &[(&str, &str)])]) -> Packument {
    let mut vs = KeyedMap::new();
    for (v, deps) in versions {
        vs.insert(v.to_string(), meta(v, deps));
    }
    Packument {
        name: name.to_string(),
        versions: vs,
    }
}

#[test]
fn fetcher_asks_for_each_package_once_in_breadth_first_order() {
    let roots = vec!["a".to_string(), "b".to_string(), "a".to_string()];
    let mut f = Fetcher::new(&roots);
    let mut asked = Vec::new();
    while let Some(name) = f.next_request() {
        asked.push(name.clone());
        let p = match name.as_str() {
            // a cycle back to a, and a dependency named by two versions
            "a" => pkg("a", &[("1.0.0", &[("c", "^1")]), ("2.0.0", &[("c", "^2"), ("a", "*")])]),
            "b" => pkg("b", &[("1.0.0", &[("d", "1"), ("c", "1")])]),
            "c" => pkg("c", &[("1.0.0", &[("b", "*")])]),
            "d" => pkg("d", &[("1.0.0", &[])]),
            other => panic!("unexpected request {other}"),
        };
        f.record(p);
    }
    assert_eq!(asked, vec!["a", "b", "c", "d"]);
    let cache = f.finish().unwrap();
    assert_eq!(cache.len(), 4);
    assert_eq!(cache.get("c").unwrap().name, "c");
}

#[test]
fn fetcher_is_not_finished_while_requests_are_pending() {
    let roots = vec!["only".to_string()];
    let f = Fetcher::new(&roots);
    assert_eq!(f.next_request().as_deref(), Some("only"));
    assert!(f.finish().is_none());
    let empty = Fetcher::new(&Vec::new());
    assert_eq!(empty.next_request(), None);
    assert_eq!(empty.finish().unwrap().len(), 0);
}

#[test]
fn fetcher_ignores_a_packument_nobody_asked_for() {
    let mut f = Fetcher::new(&Vec::new());
    f.record(pkg("stray", &[("1.0.0", &[("x", "1")])]));
    assert_eq!(f.next_request(), None);
    assert_eq!(f.finish().unwrap().len(), 0);
}

#[test]
fn package_name_to_string_is_its_text() {
    let n = PackageName::parse("@types/node".to_string()).unwrap();
    assert_eq!(n.to_string(), "@types/node");
}

#[test]
fn fetcher_start_rejects_a_bad_range_before_any_request() {
    let direct = vec![
        ("a".to_string(), "^1".to_string()),
        ("b".to_string(), "not-a-range".to_string()),
    ];
    match Fetcher::start(&direct) {
        Err(QuayError::InvalidVersionReq(raw, _)) => assert_eq!(raw, "not-a-range"),
        Err(other) => panic!("expected InvalidVersionReq, got {other:?}"),
        Ok(_) => panic!("expected an error"),
    }
    let good = vec![("a".to_string(), "^1".to_string()), ("a".to_string(), "*".to_string())];
    let f = Fetcher::start(&good).unwrap();
    assert_eq!(f.next_request().as_deref(), Some("a"));
}
