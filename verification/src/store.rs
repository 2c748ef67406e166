//! The content-addressable global store: integrity checking and content
//! addresses. Like pnpm, every package version is unpacked once into a store
//! directory named by the hash of its tarball; the directory work itself is
//! done by the application around this library.

use vstd::prelude::*;

use std::io::Read;

use base64::Engine;
use sha2::Digest;

use crate::error::QuayError;

verus! {

#[verifier::external_type_specification]
#[verifier::external_body]
pub struct ExPathBuf(std::path::PathBuf);

#[verifier::external_type_specification]
#[verifier::external_body]
pub struct ExDecodeError(base64::DecodeError);

/// The SHA-512 digest of `data` (`sha2::Sha512`).
pub uninterp spec fn sha512(data: Seq<u8>) -> Seq<u8>;

/// What the standard base64 engine (with padding) decodes `text` to, if it
/// accepts it.
pub uninterp spec fn base64_decoded(text: Seq<char>) -> Option<Seq<u8>>;

/// What the standard base64 engine (with padding) encodes `data` as.
pub uninterp spec fn base64_encoded(data: Seq<u8>) -> Seq<char>;

/// Calls `sha2::Sha512::digest`. Claims the result is `sha512` of the input
/// and, as the hash's output size is 64 bytes, has length 64.
#[verifier::external_body]
fn sha512_digest(data: &[u8]) -> (r: Vec<u8>)
    ensures
        r@ == sha512(data@),
        r@.len() == 64,
{
    sha2::Sha512::digest(data).to_vec()
}

/// Calls `Engine::decode` on the standard engine. Claims it succeeds exactly
/// when `base64_decoded` is defined, with that result.
#[verifier::external_body]
fn base64_decode(text: &str) -> (r: Result<Vec<u8>, base64::DecodeError>)
    ensures
        r is Ok <==> base64_decoded(text@) is Some,
        r matches Ok(b) ==> base64_decoded(text@) == Some(b@),
{
    base64::engine::general_purpose::STANDARD.decode(text)
}

/// Calls `Engine::encode` on the standard engine. Claims the result is
/// `base64_encoded` of the input, and that decoding it gives the input back.
/// `encode` panics only when the output length overflows `usize`.
#[verifier::external_body]
fn base64_encode(data: &[u8]) -> (r: String)
    requires
        data@.len() <= usize::MAX / 2,
    ensures
        r@ == base64_encoded(data@),
        base64_decoded(r@) == Some(data@),
{
    base64::engine::general_purpose::STANDARD.encode(data)
}

/// Calls `to_string` on a `base64::DecodeError`: the decoder's own message.
#[verifier::external_body]
fn decode_error_text(e: &base64::DecodeError) -> String {
    e.to_string()
}

/// The prefix of the integrity strings Quay accepts.
pub open spec fn sha512_prefix() -> Seq<char> {
    seq!['s', 'h', 'a', '5', '1', '2', '-']
}

/// `s` starts with `sha512-`.
pub open spec fn has_sha512_prefix(s: Seq<char>) -> bool {
    s.len() >= 7 && s.take(7) == sha512_prefix()
}

/// The digest an integrity string names, if it is well formed.
pub open spec fn integrity_digest(s: Seq<char>) -> Option<Seq<u8>> {
    if has_sha512_prefix(s) {
        base64_decoded(s.skip(7))
    } else {
        None
    }
}

/// The integrity string `sha512-<base64>` of a digest.
pub open spec fn integrity_text(digest: Seq<u8>) -> Seq<char> {
    sha512_prefix() + base64_encoded(digest)
}

/// The message for an integrity string without the `sha512-` prefix.
pub open spec fn missing_prefix_text() -> Seq<char> {
    "expected `sha512-<base64>` prefix"@
}

/// Writes the integrity string of a digest.
pub fn integrity_string(digest: &[u8]) -> (r: String)
    requires
        digest@.len() <= usize::MAX / 2,
    ensures
        r@ == integrity_text(digest@),
        integrity_digest(r@) == Some(digest@),
{
    let mut r = String::new();
    r.append("sha512-");
    let enc = base64_encode(digest);
    r.append(enc.as_str());
    proof {
        reveal_strlit("sha512-");
        assert("sha512-"@ =~= sha512_prefix());
        assert(r@.take(7) =~= sha512_prefix());
        assert(r@.skip(7) =~= enc@);
    }
    r
}

/// Whether `s` starts with `sha512-`.
fn starts_with_sha512(s: &str) -> (r: bool)
    ensures
        r == has_sha512_prefix(s@),
{
    proof {
        reveal_strlit("sha512-");
        assert("sha512-"@ =~= sha512_prefix());
    }
    let n = s.unicode_len();
    if n < 7 {
        return false;
    }
    let head = s.substring_char(0, 7);
    crate::text::str_eq(head, "sha512-")
}

/// Whether two byte strings are equal.
fn bytes_eq(a: &[u8], b: &[u8]) -> (r: bool)
    ensures
        r == (a@ == b@),
{
    if a.len() != b.len() {
        return false;
    }
    let n = a.len();
    let mut i: usize = 0;
    while i < n
        invariant
            n == a@.len(),
            n == b@.len(),
            i <= n,
            a@.take(i as int) == b@.take(i as int),
        decreases n - i,
    {
        if a[i] != b[i] {
            return false;
        }
        assert(a@.take(i + 1) =~= a@.take(i as int).push(a@[i as int]));
        assert(b@.take(i + 1) =~= b@.take(i as int).push(b@[i as int]));
        i = i + 1;
    }
    assert(a@ =~= a@.take(n as int));
    assert(b@ =~= b@.take(n as int));
    true
}

/// Parses a `sha512-<base64>` integrity string, hashes the tarball and
/// compares. Returns the raw 64-byte SHA-512 digest on success.
pub fn verify_integrity(tarball: &[u8], integrity: &str, name: &str) -> (r: Result<
    Vec<u8>,
    QuayError,
>)
    ensures
        !has_sha512_prefix(integrity@) ==> (r matches Err(QuayError::MalformedIntegrity(s, why))
            && s@ == integrity@ && why@ == missing_prefix_text()),
        has_sha512_prefix(integrity@) && integrity_digest(integrity@) is None ==> (r matches Err(
            QuayError::MalformedIntegrity(s, why),
        ) && s@ == integrity@ && why@.take(16) == "invalid base64: "@),
        integrity_digest(integrity@) matches Some(expected) && expected == sha512(tarball@) ==> (r
            matches Ok(d) && d@ == sha512(tarball@) && d@.len() == 64),
        integrity_digest(integrity@) matches Some(expected) && expected != sha512(tarball@) ==> (r
            matches Err(QuayError::IntegrityMismatch { package, expected: e, actual }) && package@
            == name@ && e@ == integrity@ && actual@ == integrity_text(sha512(tarball@))
            && integrity_digest(actual@) == Some(sha512(tarball@))),
{
    if !starts_with_sha512(integrity) {
        let why = "expected `sha512-<base64>` prefix".to_owned();
        return Err(QuayError::MalformedIntegrity(integrity.to_owned(), why));
    }
    let b64 = integrity.substring_char(7, integrity.unicode_len());
    assert(b64@ == integrity@.skip(7));
    let expected = match base64_decode(b64) {
        Ok(bytes) => bytes,
        Err(e) => {
            let mut why = String::new();
            why.append("invalid base64: ");
            let ghost head = why@;
            let msg = decode_error_text(&e);
            why.append(msg.as_str());
            proof {
                reveal_strlit("invalid base64: ");
                assert(why@.take(16) =~= head);
            }
            return Err(QuayError::MalformedIntegrity(integrity.to_owned(), why));
        },
    };
    let actual = sha512_digest(tarball);
    if !bytes_eq(actual.as_slice(), expected.as_slice()) {
        let shown = integrity_string(actual.as_slice());
        return Err(
            QuayError::IntegrityMismatch {
                package: name.to_owned(),
                expected: integrity.to_owned(),
                actual: shown,
            },
        );
    }
    Ok(actual)
}

/// Lower-case hexadecimal digit for `d < 16`.
pub open spec fn hex_digit(d: nat) -> char {
    if d < 10 {
        (48 + d) as char
    } else {
        (87 + d) as char
    }
}

/// Lower-case hex encoding of a byte string, two digits per byte.
pub open spec fn hex_text(bytes: Seq<u8>) -> Seq<char>
    decreases bytes.len(),
{
    if bytes.len() == 0 {
        Seq::empty()
    } else {
        hex_text(bytes.drop_last()) + seq![
            hex_digit((bytes.last() / 16) as nat),
            hex_digit((bytes.last() % 16) as nat),
        ]
    }
}

/// Each byte takes two hex digits.
pub proof fn lemma_hex_text_len(bytes: Seq<u8>)
    ensures
        hex_text(bytes).len() == 2 * bytes.len(),
    decreases bytes.len(),
{
    if bytes.len() > 0 {
        lemma_hex_text_len(bytes.drop_last());
    }
}

/// Hex encoding loses nothing: two byte strings with the same encoding are
/// equal.
pub proof fn lemma_hex_text_injective(a: Seq<u8>, b: Seq<u8>)
    requires
        hex_text(a) == hex_text(b),
    ensures
        a == b,
    decreases a.len(),
{
    lemma_hex_text_len(a);
    lemma_hex_text_len(b);
    if a.len() > 0 {
        let ha = hex_text(a.drop_last());
        let hb = hex_text(b.drop_last());
        lemma_hex_text_len(a.drop_last());
        lemma_hex_text_len(b.drop_last());
        let n = hex_text(a).len();
        assert(hex_text(a)[n - 2] == hex_digit((a.last() / 16) as nat));
        assert(hex_text(b)[n - 2] == hex_digit((b.last() / 16) as nat));
        assert(hex_text(a)[n - 1] == hex_digit((a.last() % 16) as nat));
        assert(hex_text(b)[n - 1] == hex_digit((b.last() % 16) as nat));
        assert(a.last() == b.last());
        assert(ha =~= hex_text(a).take(n - 2));
        assert(hb =~= hex_text(b).take(n - 2));
        lemma_hex_text_injective(a.drop_last(), b.drop_last());
        assert(a =~= a.drop_last().push(a.last()));
        assert(b =~= b.drop_last().push(b.last()));
    }
}

/// Content addressing deduplicates exactly: two tarballs share a store
/// address if and only if they have the same SHA-512 digest.
pub proof fn lemma_content_address_dedupe(t1: Seq<u8>, t2: Seq<u8>)
    ensures
        hex_text(sha512(t1)) == hex_text(sha512(t2)) <==> sha512(t1) == sha512(t2),
{
    if hex_text(sha512(t1)) == hex_text(sha512(t2)) {
        lemma_hex_text_injective(sha512(t1), sha512(t2));
    }
}

/// Lower-case hex encoding of a byte slice.
pub fn hex(bytes: &[u8]) -> (r: String)
    ensures
        r@ == hex_text(bytes@),
{
    let digits = "0123456789abcdef";
    proof {
        reveal_strlit("0123456789abcdef");
    }
    let mut s = String::new();
    let n = bytes.len();
    let mut i: usize = 0;
    while i < n
        invariant
            n == bytes@.len(),
            i <= n,
            digits@ == "0123456789abcdef"@,
            digits@.len() == 16,
            forall|d: int| 0 <= d < 16 ==> #[trigger] digits@[d] == hex_digit(d as nat),
            s@ == hex_text(bytes@.take(i as int)),
        decreases n - i,
    {
        let b = bytes[i];
        let hi = (b / 16) as usize;
        let lo = (b % 16) as usize;
        s.append(digits.substring_char(hi, hi + 1));
        s.append(digits.substring_char(lo, lo + 1));
        proof {
            assert(bytes@.take(i + 1).drop_last() =~= bytes@.take(i as int));
            assert(digits@.subrange(hi as int, hi + 1) =~= seq![digits@[hi as int]]);
            assert(digits@.subrange(lo as int, lo + 1) =~= seq![digits@[lo as int]]);
        }
        i = i + 1;
    }
    assert(bytes@.take(n as int) =~= bytes@);
    s
}

/// Verifies a tarball against its integrity string and returns its content
/// address: the hex encoding of its SHA-512 digest. Identical bytes always get
/// the same address, which is what makes the store deduplicate.
pub fn content_address(tarball: &[u8], integrity: &str, name: &str) -> (r: Result<String, QuayError>)
    ensures
        r is Ok <==> integrity_digest(integrity@) == Some(sha512(tarball@)),
        r matches Ok(a) ==> a@ == hex_text(sha512(tarball@)),
        r matches Err(e) ==> (e is MalformedIntegrity <==> integrity_digest(integrity@) is None),
        r matches Err(e) ==> (e is MalformedIntegrity || e is IntegrityMismatch),
        r matches Err(QuayError::MalformedIntegrity(s, _)) ==> s@ == integrity@,
        r matches Err(QuayError::IntegrityMismatch { package, expected, actual }) ==> package@
            == name@ && expected@ == integrity@ && actual@ == integrity_text(sha512(tarball@))
            && integrity_digest(actual@) == Some(sha512(tarball@)),
{
    let digest = verify_integrity(tarball, integrity, name)?;
    Ok(hex(digest.as_slice()))
}

/// One member of a package tarball: its path split into components (each the
/// bytes of that component), whether it is a directory, and its contents.
#[derive(Debug, Clone)]
pub struct TarMember {
    pub path: Vec<Vec<u8>>,
    pub is_dir: bool,
    pub data: Vec<u8>,
}

/// A member by its bytes.
pub open spec fn member_view(m: TarMember) -> (Seq<Seq<u8>>, bool, Seq<u8>) {
    (m.path@.map_values(|c: Vec<u8>| c@), m.is_dir, m.data@)
}

/// A list of members by their bytes.
pub open spec fn members_view(ms: Seq<TarMember>) -> Seq<(Seq<Seq<u8>>, bool, Seq<u8>)> {
    ms.map_values(|m: TarMember| member_view(m))
}

/// The members that `flate2` and `tar` read out of a gzipped tarball, in
/// archive order, up to the first one that cannot be read; and whether the
/// whole archive was read.
pub uninterp spec fn tgz_members(tarball: Seq<u8>) -> (Seq<(Seq<Seq<u8>>, bool, Seq<u8>)>, bool);

/// Reads a gzipped tarball in memory with `flate2::read::GzDecoder` and
/// `tar::Archive::entries`: for each entry, the components of `Entry::path`
/// (each as its bytes), whether the header's entry type is a directory, and
/// the contents read with `read_to_end`. Stops at the first entry that cannot
/// be read, with `false`. Claims the result is `tgz_members` of the bytes.
#[verifier::external_body]
fn read_tgz(tarball: &[u8]) -> (r: (Vec<TarMember>, bool))
    ensures
        members_view(r.0@) == tgz_members(tarball@).0,
        r.1 == tgz_members(tarball@).1,
{
    let mut archive = tar::Archive::new(flate2::read::GzDecoder::new(tarball));
    let mut out = Vec::new();
    let Ok(entries) = archive.entries() else { return (out, false) };
    for entry in entries {
        let Ok(mut entry) = entry else { return (out, false) };
        let Ok(path) = entry.path() else { return (out, false) };
        let path = path.components().map(|c| c.as_os_str().as_encoded_bytes().to_vec()).collect();
        let mut data = Vec::new();
        let Ok(_) = entry.read_to_end(&mut data) else { return (out, false) };
        out.push(TarMember { path, is_dir: entry.header().entry_type().is_dir(), data });
    }
    (out, true)
}

/// A path component that would lead out of the directory it is joined to:
/// `..`, or a root (which starts with `/`).
pub open spec fn escapes(c: Seq<u8>) -> bool {
    c == seq![46u8, 46u8] || (c.len() > 0 && c[0] == 47u8)
}

/// The directory npm wraps a package in: `package`.
pub open spec fn package_dir() -> Seq<u8> {
    seq![112u8, 97u8, 99u8, 107u8, 97u8, 103u8, 101u8]
}

/// The path below the package root: a leading `package` component (the
/// wrapper npm tarballs put everything in) is dropped; other paths are kept
/// as they are.
pub open spec fn below_root(path: Seq<Seq<u8>>) -> Seq<Seq<u8>> {
    if path.len() > 0 && path[0] == package_dir() {
        path.drop_first()
    } else {
        path
    }
}

/// What unpacking writes, member by member: each member at its path below
/// the package root, members whose path is then empty skipped; or the full
/// path of the first member whose path would escape the destination.
pub open spec fn unpack_spec(ms: Seq<(Seq<Seq<u8>>, bool, Seq<u8>)>) -> Result<
    Seq<(Seq<Seq<u8>>, bool, Seq<u8>)>,
    Seq<Seq<u8>>,
>
    decreases ms.len(),
{
    if ms.len() == 0 {
        Ok(Seq::empty())
    } else {
        match unpack_spec(ms.drop_last()) {
            Err(p) => Err(p),
            Ok(acc) => {
                let m = ms.last();
                let s = below_root(m.0);
                if s.len() == 0 {
                    Ok(acc)
                } else if exists|j: int| 0 <= j < s.len() && escapes(#[trigger] s[j]) {
                    Err(m.0)
                } else {
                    Ok(acc.push((s, m.1, m.2)))
                }
            },
        }
    }
}

/// The member is written somewhere: something is left of its path below the
/// package root.
pub open spec fn kept(m: (Seq<Seq<u8>>, bool, Seq<u8>)) -> bool {
    below_root(m.0).len() > 0
}

/// Some component of the member's path below the package root escapes.
pub open spec fn escaping(m: (Seq<Seq<u8>>, bool, Seq<u8>)) -> bool {
    exists|j: int| 0 <= j < below_root(m.0).len() && escapes(#[trigger] below_root(m.0)[j])
}

/// How many of the first `i` members are written.
pub open spec fn kept_before(ms: Seq<(Seq<Seq<u8>>, bool, Seq<u8>)>, i: int) -> nat
    decreases i,
{
    if i <= 0 {
        0
    } else {
        kept_before(ms, i - 1) + if kept(ms[i - 1]) {
            1nat
        } else {
            0nat
        }
    }
}

proof fn lemma_kept_before_prefix(
    ms: Seq<(Seq<Seq<u8>>, bool, Seq<u8>)>,
    pre: Seq<(Seq<Seq<u8>>, bool, Seq<u8>)>,
    i: int,
)
    requires
        0 <= i <= pre.len(),
        i <= ms.len(),
        forall|j: int| 0 <= j < i ==> ms[j] == pre[j],
    ensures
        kept_before(ms, i) == kept_before(pre, i),
    decreases i,
{
    if i > 0 {
        lemma_kept_before_prefix(ms, pre, i - 1);
    }
}

proof fn lemma_kept_before_mono(ms: Seq<(Seq<Seq<u8>>, bool, Seq<u8>)>, i: int, j: int)
    requires
        0 <= i <= j,
    ensures
        kept_before(ms, i) <= kept_before(ms, j),
    decreases j - i,
{
    if i < j {
        lemma_kept_before_mono(ms, i, j - 1);
    }
}

/// What unpacking plans, member by member. The tarball is accepted exactly
/// when no written member's path escapes. Then the plan holds, in archive
/// order, one entry for every member with something left of its path below
/// the package root, with that path, its kind and its contents, and nothing
/// else. Otherwise the refused path is that of the first written member
/// whose path escapes.
pub proof fn lemma_unpack_members(ms: Seq<(Seq<Seq<u8>>, bool, Seq<u8>)>)
    ensures
        unpack_spec(ms) is Ok <==> forall|i: int| 0 <= i < ms.len() && kept(#[trigger] ms[i]) ==> !escaping(ms[i]),
        unpack_spec(ms) is Ok ==> unpack_spec(ms)->Ok_0.len() == kept_before(ms, ms.len() as int),
        unpack_spec(ms) is Ok ==> forall|i: int|
            0 <= i < ms.len() && kept(#[trigger] ms[i]) ==> unpack_spec(ms)->Ok_0[kept_before(ms, i) as int]
                == (below_root(ms[i].0), ms[i].1, ms[i].2),
        unpack_spec(ms) is Err ==> exists|i: int|
            0 <= i < ms.len() && kept(#[trigger] ms[i]) && escaping(ms[i]) && unpack_spec(ms)->Err_0
                == ms[i].0 && forall|j: int| 0 <= j < i && kept(#[trigger] ms[j]) ==> !escaping(ms[j]),
    decreases ms.len(),
{
    if ms.len() == 0 {
        return;
    }
    let n = ms.len() as int;
    let pre = ms.drop_last();
    lemma_unpack_members(pre);
    assert forall|j: int| 0 <= j < n - 1 implies ms[j] == pre[j] by {}
    assert forall|i: int| 0 <= i <= n - 1 implies kept_before(ms, i) == kept_before(pre, i) by {
        lemma_kept_before_prefix(ms, pre, i);
    }
    let m = ms.last();
    assert(m == ms[n - 1]);
    match unpack_spec(pre) {
        Err(p) => {
            let i = choose|i: int|
                0 <= i < pre.len() && kept(#[trigger] pre[i]) && escaping(pre[i]) && p == pre[i].0
                    && forall|j: int| 0 <= j < i && kept(#[trigger] pre[j]) ==> !escaping(pre[j]);
            assert(ms[i] == pre[i]);
            assert forall|j: int| 0 <= j < i && kept(#[trigger] ms[j]) implies !escaping(ms[j]) by {
                assert(ms[j] == pre[j]);
            }
        },
        Ok(acc) => {
            assert forall|i: int| 0 <= i < n - 1 && kept(#[trigger] ms[i]) implies !escaping(ms[i]) by {
                assert(ms[i] == pre[i]);
            }
            assert forall|i: int| 0 <= i < n - 1 && kept(#[trigger] ms[i]) implies kept_before(ms, i) < acc.len()
                && acc[kept_before(ms, i) as int] == (below_root(ms[i].0), ms[i].1, ms[i].2) by {
                assert(ms[i] == pre[i]);
                assert(kept(pre[i]));
                lemma_kept_before_mono(pre, i + 1, n - 1);
            }
            if !kept(m) {
            } else if escaping(m) {
                assert(kept(ms[n - 1]) && escaping(ms[n - 1]));
            } else {
                let plan = acc.push((below_root(m.0), m.1, m.2));
                assert(unpack_spec(ms) == Ok::<Seq<(Seq<Seq<u8>>, bool, Seq<u8>)>, Seq<Seq<u8>>>(plan));
                assert forall|i: int| 0 <= i < n && kept(#[trigger] ms[i]) implies plan[kept_before(ms, i) as int]
                    == (below_root(ms[i].0), ms[i].1, ms[i].2) by {
                    if i < n - 1 {
                        assert(kept_before(ms, i) < acc.len());
                    }
                }
            }
        },
    }
}

/// Why a tarball cannot be unpacked.
#[derive(Debug)]
pub enum UnpackError {
    /// The gzip stream or the tar archive cannot be read.
    Unreadable,
    /// A member's path (given whole, by component) would escape the
    /// destination directory.
    Escapes(Vec<Vec<u8>>),
}

/// Whether a path component escapes.
fn component_escapes(c: &Vec<u8>) -> (r: bool)
    ensures
        r == escapes(c@),
{
    let n = c.len();
    if n == 2 && c[0] == 46u8 && c[1] == 46u8 {
        assert(c@ =~= seq![46u8, 46u8]);
        return true;
    }
    n > 0 && c[0] == 47u8
}

/// Whether a path component is npm's `package` wrapper.
fn is_package_dir(c: &Vec<u8>) -> (r: bool)
    ensures
        r == (c@ == package_dir()),
{
    if c.len() != 7 {
        return false;
    }
    let r = c[0] == 112u8 && c[1] == 97u8 && c[2] == 99u8 && c[3] == 107u8 && c[4] == 97u8
        && c[5] == 103u8 && c[6] == 101u8;
    if r {
        assert(c@ =~= package_dir());
    }
    r
}

/// A copy of a list of bytes.
fn copy_bytes(b: &Vec<u8>) -> (r: Vec<u8>)
    ensures
        r@ == b@,
{
    let mut r: Vec<u8> = Vec::new();
    let n = b.len();
    let mut i: usize = 0;
    while i < n
        invariant
            n == b@.len(),
            i <= n,
            r@ == b@.take(i as int),
        decreases n - i,
    {
        r.push(b[i]);
        assert(b@.take(i + 1) =~= b@.take(i as int).push(b@[i as int]));
        i = i + 1;
    }
    assert(b@.take(n as int) =~= b@);
    r
}

/// Reads a package tarball and works out what to write: every member at its
/// path below the package root (a leading `package/` dropped, other paths
/// kept as they are), members with nothing left of their path skipped. A
/// member whose path would escape the destination (`..` or a root) refuses
/// the whole tarball, as does an archive that cannot be read to its end;
/// whichever comes first in the archive is reported. Nothing is written here,
/// so a refused tarball leaves no trace.
#[verifier::loop_isolation(false)]
pub fn unpack_plan(tarball: &[u8]) -> (r: Result<Vec<TarMember>, UnpackError>)
    ensures
        match unpack_spec(tgz_members(tarball@).0) {
            Err(path) => r matches Err(UnpackError::Escapes(p)) && p@.map_values(|c: Vec<u8>| c@)
                == path,
            Ok(plan) => if tgz_members(tarball@).1 {
                r matches Ok(out) && members_view(out@) == plan
            } else {
                r matches Err(UnpackError::Unreadable)
            },
        },
{
    let (members, complete) = read_tgz(tarball);
    let ghost ms = members_view(members@);
    let mut out: Vec<TarMember> = Vec::new();
    assert(ms.take(0) =~= Seq::<(Seq<Seq<u8>>, bool, Seq<u8>)>::empty());
    assert(members_view(out@) =~= Seq::<(Seq<Seq<u8>>, bool, Seq<u8>)>::empty());
    let n = members.len();
    let mut i: usize = 0;
    while i < n
        invariant
            n == members@.len(),
            ms == members_view(members@),
            i <= n,
            unpack_spec(ms.take(i as int)) == Ok::<Seq<(Seq<Seq<u8>>, bool, Seq<u8>)>, Seq<Seq<u8>>>(
                members_view(out@),
            ),
        decreases n - i,
    {
        let m = &members[i];
        let ghost mv = member_view(*m);
        assert(ms.take(i + 1).drop_last() =~= ms.take(i as int));
        assert(ms.take(i + 1).last() == mv);
        let np = m.path.len();
        let start: usize = if np > 0 && is_package_dir(&m.path[0]) {
            1
        } else {
            0
        };
        let ghost s = below_root(mv.0);
        assert(s =~= mv.0.skip(start as int));
        let mut kept: Vec<Vec<u8>> = Vec::new();
        let mut bad = false;
        let mut j: usize = start;
        while j < np
            invariant
                np == m.path@.len(),
                start <= j <= np,
                kept@.len() == j - start,
                forall|q: int| 0 <= q < kept@.len() ==> (#[trigger] kept@[q])@ == m.path@[q + start]@,
                bad <==> exists|q: int| start <= q < j && escapes(#[trigger] m.path@[q]@),
            decreases np - j,
        {
            if component_escapes(&m.path[j]) {
                bad = true;
            }
            kept.push(copy_bytes(&m.path[j]));
            j = j + 1;
        }
        proof {
            assert(kept@.map_values(|c: Vec<u8>| c@) =~= s);
            assert(bad <==> exists|q: int| 0 <= q < s.len() && escapes(#[trigger] s[q])) by {
                if bad {
                    let q = choose|q: int| start <= q < j && escapes(#[trigger] m.path@[q]@);
                    assert(s[q - start] == m.path@[q]@);
                }
                if exists|q: int| 0 <= q < s.len() && escapes(#[trigger] s[q]) {
                    let q = choose|q: int| 0 <= q < s.len() && escapes(#[trigger] s[q]);
                    assert(m.path@[q + start]@ == s[q]);
                }
            }
        }
        if np <= start {
            // Nothing is left of the path below the package root.
        } else if bad {
            let mut whole: Vec<Vec<u8>> = Vec::new();
            let mut q: usize = 0;
            while q < np
                invariant
                    np == m.path@.len(),
                    q <= np,
                    whole@.len() == q,
                    forall|w: int| 0 <= w < q ==> (#[trigger] whole@[w])@ == m.path@[w]@,
                decreases np - q,
            {
                whole.push(copy_bytes(&m.path[q]));
                q = q + 1;
            }
            proof {
                assert(whole@.map_values(|c: Vec<u8>| c@) =~= mv.0);
                lemma_unpack_spec_err_stays(ms, i as int + 1);
            }
            return Err(UnpackError::Escapes(whole));
        } else {
            let item = TarMember { path: kept, is_dir: m.is_dir, data: copy_bytes(&m.data) };
            let ghost before = out@;
            out.push(item);
            proof {
                assert(members_view(out@) =~= members_view(before).push(member_view(item)));
                assert(member_view(item) == (s, mv.1, mv.2));
            }
        }
        i = i + 1;
    }
    assert(ms.take(n as int) =~= ms);
    if !complete {
        return Err(UnpackError::Unreadable);
    }
    Ok(out)
}

/// Once unpacking a prefix of the members is refused, so is unpacking all of
/// them, with the same path.
proof fn lemma_unpack_spec_err_stays(ms: Seq<(Seq<Seq<u8>>, bool, Seq<u8>)>, i: int)
    requires
        0 <= i <= ms.len(),
        unpack_spec(ms.take(i)) is Err,
    ensures
        unpack_spec(ms) == unpack_spec(ms.take(i)),
    decreases ms.len() - i,
{
    if i < ms.len() {
        assert(ms.take(i + 1).drop_last() =~= ms.take(i));
        lemma_unpack_spec_err_stays(ms, i + 1);
    } else {
        assert(ms.take(i) =~= ms);
    }
}

/// Handle to the on-disk global store.
#[derive(Debug)]
pub struct Store {
    root: std::path::PathBuf,
}

impl Store {
    /// The directory that holds the store.
    pub closed spec fn spec_root(&self) -> std::path::PathBuf {
        self.root
    }

    /// A store rooted at `root`.
    pub fn new(root: std::path::PathBuf) -> (s: Store)
        ensures
            s.spec_root() == root,
    {
        Store { root }
    }

    /// The directory that holds the store.
    pub fn root(&self) -> (r: &std::path::PathBuf)
        ensures
            *r == self.spec_root(),
    {
        &self.root
    }
}

} // verus!
