use std::io::Write as _;

use base64::Engine as _;
use flate2::write::GzEncoder;
use flate2::Compression;
use sha2::{Digest, Sha512};

use quay::error::QuayError;
use quay::store::{content_address, hex, integrity_string, unpack_plan, verify_integrity, Store, UnpackError};

/// Build a minimal npm-style `.tgz` in memory: a gzipped tar whose entries are
/// prefixed with `package/`. Returns `(tarball_bytes, integrity)`.
fn make_fixture(files: &[(&str, &[u8])]) -> (Vec<u8>, String) {
    let mut tar_buf = Vec::new();
    {
        let mut builder = tar::Builder::new(&mut tar_buf);
        for (name, contents) in files {
            let mut header = tar::Header::new_gnu();
            header.set_size(contents.len() as u64);
            header.set_mode(0o644);
            header.set_cksum();
            builder
                .append_data(
                    &mut header,
                    format!("package/{name}"),
                    std::io::Cursor::new(contents),
                )
                .unwrap();
        }
        builder.finish().unwrap();
    }

    let mut gz = GzEncoder::new(Vec::new(), Compression::default());
    gz.write_all(&tar_buf).unwrap();
    let tarball = gz.finish().unwrap();

    let digest = Sha512::digest(&tarball);
    let integrity = format!(
        "sha512-{}",
        base64::engine::general_purpose::STANDARD.encode(digest)
    );
    (tarball, integrity)
}

fn lower_hex(bytes: &[u8]) -> String {
    bytes.iter().map(|b| format!("{b:02x}")).collect()
}

#[test]
fn rejects_malformed_integrity() {
    let (tarball, _) = make_fixture(&[("index.js", b"hello")]);

    let err = content_address(&tarball, "sha1-abc", "demo").unwrap_err();
    assert!(matches!(err, QuayError::MalformedIntegrity(..)));
}

#[test]
fn content_address_is_the_hex_digest() {
    let (tarball, integrity) = make_fixture(&[("index.js", b"twice")]);
    let first = content_address(&tarball, &integrity, "demo").unwrap();
    let second = content_address(&tarball, &integrity, "other-name").unwrap();
    assert_eq!(first, second);
    assert_eq!(first.len(), 128);
    assert_eq!(first, lower_hex(&Sha512::digest(&tarball)));
}

#[test]
fn content_address_rejects_integrity_mismatch() {
    let (tarball, _good) = make_fixture(&[("index.js", b"hello")]);
    let (_other, wrong) = make_fixture(&[("index.js", b"goodbye")]);

    let err = content_address(&tarball, &wrong, "demo").unwrap_err();
    match err {
        QuayError::IntegrityMismatch {
            package,
            expected,
            actual,
        } => {
            assert_eq!(package, "demo");
            assert_eq!(expected, wrong);
            assert_eq!(actual, make_fixture(&[("index.js", b"hello")]).1);
        }
        other => panic!("expected IntegrityMismatch, got {other:?}"),
    }
}

#[test]
fn verify_integrity_returns_the_digest() {
    let data = b"some tarball bytes";
    let digest = Sha512::digest(data);
    let integrity = format!(
        "sha512-{}",
        base64::engine::general_purpose::STANDARD.encode(digest)
    );
    let got = verify_integrity(data, &integrity, "x").unwrap();
    assert_eq!(got, digest.to_vec());
    assert_eq!(got.len(), 64);
}

#[test]
fn verify_integrity_reports_bad_base64() {
    let err = verify_integrity(b"abc", "sha512-!!!not base64!!!", "x").unwrap_err();
    match err {
        QuayError::MalformedIntegrity(s, why) => {
            assert_eq!(s, "sha512-!!!not base64!!!");
            assert!(why.starts_with("invalid base64: "), "{why}");
        }
        other => panic!("expected MalformedIntegrity, got {other:?}"),
    }
}

#[test]
fn verify_integrity_reports_missing_prefix() {
    let err = verify_integrity(b"abc", "md5-xyz", "x").unwrap_err();
    match err {
        QuayError::MalformedIntegrity(s, why) => {
            assert_eq!(s, "md5-xyz");
            assert_eq!(why, "expected `sha512-<base64>` prefix");
        }
        other => panic!("expected MalformedIntegrity, got {other:?}"),
    }
}

#[test]
fn hex_encodes_two_digits_per_byte() {
    assert_eq!(hex(&[]), "");
    assert_eq!(hex(&[0x00, 0x0f, 0xa0, 0xff]), "000fa0ff");
    assert_eq!(hex(&[1, 35, 69, 103, 137, 171, 205, 239]), "0123456789abcdef");
}

#[test]
fn integrity_string_round_trips() {
    let digest = Sha512::digest(b"round trip");
    let s = integrity_string(&digest);
    assert_eq!(
        s,
        format!(
            "sha512-{}",
            base64::engine::general_purpose::STANDARD.encode(digest)
        )
    );
    // The string names the digest it was made from.
    let back = verify_integrity(b"round trip", &s, "rt").unwrap();
    assert_eq!(back, digest.to_vec());
}

#[test]
fn store_keeps_its_root() {
    let store = Store::new(std::path::PathBuf::from("/tmp/quay-store"));
    assert_eq!(store.root(), &std::path::PathBuf::from("/tmp/quay-store"));
}

#[test]
fn different_tarballs_get_different_addresses() {
    let (one, i1) = make_fixture(&[("index.js", b"one")]);
    let (two, i2) = make_fixture(&[("index.js", b"two")]);
    let a1 = content_address(&one, &i1, "p").unwrap();
    let a2 = content_address(&two, &i2, "p").unwrap();
    assert_ne!(a1, a2);
}

/// A gzipped tar with raw entry names (no path checks), each a file unless
/// its name ends in `/`.
fn raw_tgz(entries: &[(&str, &[u8])]) -> Vec<u8> {
    let mut tar_buf = Vec::new();
    {
        let mut builder = tar::Builder::new(&mut tar_buf);
        for (name, contents) in entries {
            let mut header = tar::Header::new_gnu();
            let bytes = name.as_bytes();
            header.as_gnu_mut().unwrap().name[..bytes.len()].copy_from_slice(bytes);
            if name.ends_with('/') {
                header.set_entry_type(tar::EntryType::Directory);
            }
            header.set_size(contents.len() as u64);
            header.set_mode(0o644);
            header.set_cksum();
            builder.append(&header, std::io::Cursor::new(contents)).unwrap();
        }
        builder.finish().unwrap();
    }
    let mut gz = GzEncoder::new(Vec::new(), Compression::default());
    gz.write_all(&tar_buf).unwrap();
    gz.finish().unwrap()
}

#[test]
fn unpack_plan_strips_the_package_directory() {
    let (tarball, _) = make_fixture(&[
        ("package.json", br#"{"name":"demo","version":"1.0.0"}"#),
        ("lib/index.js", b"module.exports = 42;\n"),
    ]);
    let plan = unpack_plan(&tarball).unwrap();
    assert_eq!(plan.len(), 2);
    assert_eq!(plan[0].path, vec![b"package.json".to_vec()]);
    assert!(!plan[0].is_dir);
    assert_eq!(plan[0].data, br#"{"name":"demo","version":"1.0.0"}"#.to_vec());
    assert_eq!(plan[1].path, vec![b"lib".to_vec(), b"index.js".to_vec()]);
    assert_eq!(plan[1].data, b"module.exports = 42;\n".to_vec());
}

#[test]
fn unpack_plan_skips_the_root_and_keeps_directories() {
    let tarball = raw_tgz(&[("package/", b""), ("package/lib/", b""), ("package/lib/a.js", b"a")]);
    let plan = unpack_plan(&tarball).unwrap();
    assert_eq!(plan.len(), 2);
    assert_eq!(plan[0].path, vec![b"lib".to_vec()]);
    assert!(plan[0].is_dir);
    assert_eq!(plan[1].path, vec![b"lib".to_vec(), b"a.js".to_vec()]);
}

#[test]
fn unpack_plan_refuses_a_path_that_escapes() {
    let tarball = raw_tgz(&[("package/ok.js", b"ok"), ("package/../evil.js", b"evil")]);
    match unpack_plan(&tarball) {
        Err(UnpackError::Escapes(path)) => {
            assert_eq!(
                path,
                vec![b"package".to_vec(), b"..".to_vec(), b"evil.js".to_vec()]
            );
        }
        other => panic!("expected Escapes, got {other:?}"),
    }
}

#[test]
fn unpack_plan_refuses_bytes_that_are_not_a_tarball() {
    assert!(matches!(
        unpack_plan(b"definitely not gzip"),
        Err(UnpackError::Unreadable)
    ));
}

#[test]
fn unpack_plan_keeps_paths_without_the_package_directory() {
    let tarball = raw_tgz(&[("index.js", b"plain"), ("lib/a.js", b"a"), ("package/b.js", b"b")]);
    let plan = unpack_plan(&tarball).unwrap();
    assert_eq!(plan.len(), 3);
    assert_eq!(plan[0].path, vec![b"index.js".to_vec()]);
    assert_eq!(plan[0].data, b"plain".to_vec());
    assert_eq!(plan[1].path, vec![b"lib".to_vec(), b"a.js".to_vec()]);
    assert_eq!(plan[2].path, vec![b"b.js".to_vec()]);
}
