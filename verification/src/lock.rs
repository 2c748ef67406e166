//! The `quay.lock` model: a deterministic, fully pinned record of a
//! resolution, so installs are reproducible across machines and CI.

use vstd::prelude::*;

use crate::keyed::{lemma_same_contents_same_layout, lemma_sorted_first_index, KeyedMap};
use crate::resolver::{opt_text, ResolvedPackage, Resolution};
use crate::versions::version_text;

verus! {

/// The lockfile's file name within a project directory.
pub const LOCKFILE_NAME: &'static str = "quay.lock";

/// The lockfile format version this library writes.
pub const LOCKFILE_VERSION: u32 = 1;

/// One pinned package: its exact version, where its tarball lives, and the
/// integrity hash to check it against.
#[derive(Debug, Clone)]
pub struct LockedPackage {
    pub version: String,
    pub resolved: String,
    pub integrity: Option<String>,
}

/// Versioned lockfile: package name to pinned entry, in key order.
#[derive(Debug, Clone)]
pub struct Lockfile {
    pub lockfile_version: u32,
    pub packages: KeyedMap<LockedPackage>,
}

/// A locked entry by its text: version, tarball URL and integrity.
pub type LockedView = (Seq<char>, Seq<char>, Option<Seq<char>>);

/// The entry a resolved package is locked as.
pub open spec fn locked_entry(p: ResolvedPackage) -> LockedView {
    (version_text(p.id.version@), p.tarball@, opt_text(p.integrity))
}

/// A locked package by its text.
pub open spec fn locked_view(p: LockedPackage) -> LockedView {
    (p.version@, p.resolved@, opt_text(p.integrity))
}

/// `m` locks `k` as `e`.
pub open spec fn locks_as(m: KeyedMap<LockedPackage>, k: Seq<char>, e: LockedView) -> bool {
    m.lookup(k) is Some && locked_view(m.lookup(k)->0) == e
}

/// The lockfile's packages, in order, by their text.
pub open spec fn lock_entries(m: KeyedMap<LockedPackage>) -> Seq<(Seq<char>, LockedView)> {
    Seq::new(m.size(), |i: int| (m.keys()[i], locked_view(m.values()[i])))
}

/// What a resolution locks to, in order.
pub open spec fn expected_entries(m: KeyedMap<ResolvedPackage>) -> Seq<(Seq<char>, LockedView)> {
    Seq::new(m.size(), |i: int| (m.keys()[i], locked_entry(m.values()[i])))
}

impl Lockfile {
    /// Builds a lockfile from a solved resolution.
    ///
    /// Each entry carries the pinned version plus the `resolved` tarball URL
    /// and `integrity` hash from the registry, so an install is reproducible
    /// without re-querying version metadata.
    pub fn from_resolution(resolution: &Resolution) -> (r: Lockfile)
        ensures
            r.lockfile_version == LOCKFILE_VERSION,
            lock_entries(r.packages) == expected_entries(resolution.packages),
            forall|k: Seq<char>| #[trigger]
                r.packages.lookup(k) is Some <==> resolution.packages.lookup(k) is Some,
            forall|k: Seq<char>|
                #[trigger] resolution.packages.lookup(k) is Some ==> locked_view(r.packages.lookup(k)->0)
                    == locked_entry(resolution.packages.lookup(k)->0),
    {
        let res = &resolution.packages;
        let n = res.len();
        let mut packages: KeyedMap<LockedPackage> = KeyedMap::new();
        let mut i: usize = 0;
        while i < n
            invariant
                n == res.size(),
                res.wf(),
                i <= n,
                forall|k: Seq<char>| #[trigger]
                    packages.keys().contains(k) <==> exists|j: int|
                        0 <= j < i && #[trigger] res.keys()[j] == k,
                forall|j: int|
                    0 <= j < i ==> locks_as(packages, #[trigger] res.keys()[j], locked_entry(res.values()[j])),
            decreases n - i,
        {
            let key = res.key_at(i);
            let pkg = res.value_at(i);
            let integrity = match &pkg.integrity {
                Some(s) => Some(s.clone()),
                None => None,
            };
            let lp = LockedPackage {
                version: pkg.id.version.to_string(),
                resolved: pkg.tarball.clone(),
                integrity,
            };
            let ghost before = packages;
            packages.insert(key.clone(), lp);
            proof {
                assert forall|k: Seq<char>| #[trigger]
                    packages.keys().contains(k) <==> exists|j: int|
                        0 <= j < i + 1 && #[trigger] res.keys()[j] == k by {
                    assert(packages.keys().to_set().contains(k) == packages.keys().contains(k));
                    assert(before.keys().to_set().contains(k) == before.keys().contains(k));
                    assert(before.keys().contains(k) <==> exists|j: int|
                        0 <= j < i && #[trigger] res.keys()[j] == k);
                    if k == key@ {
                        assert(res.keys()[i as int] == k);
                    }
                    if exists|j: int| 0 <= j < i + 1 && #[trigger] res.keys()[j] == k {
                        let j = choose|j: int| 0 <= j < i + 1 && #[trigger] res.keys()[j] == k;
                        if j < i {
                            assert(exists|j: int| 0 <= j < i && #[trigger] res.keys()[j] == k);
                        }
                    }
                }
                assert forall|j: int|
                    0 <= j < i + 1 implies locks_as(packages, #[trigger] res.keys()[j], locked_entry(res.values()[j])) by {
                    if j < i {
                        assert(res.keys()[j] != key@) by {
                            crate::solver::lemma_keys_distinct(res.keys(), j, i as int);
                        }
                    }
                }
            }
            i = i + 1;
        }
        proof {
            assert forall|k: Seq<char>| packages.keys().contains(k) <==> res.keys().contains(k) by {
                if res.keys().contains(k) {
                    let j = choose|j: int| 0 <= j < res.keys().len() && res.keys()[j] == k;
                    assert(exists|q: int| 0 <= q < n && #[trigger] res.keys()[q] == k);
                }
            }
            use_type_invariant(&packages);
            crate::keyed::lemma_sorted_same_members(packages.keys(), res.keys());
            assert forall|j: int| 0 <= j < n implies #[trigger] lock_entries(packages)[j]
                == expected_entries(*res)[j] by {
                lemma_sorted_first_index(packages.keys(), j);
                assert(locks_as(packages, res.keys()[j], locked_entry(res.values()[j])));
            }
            assert(lock_entries(packages) =~= expected_entries(*res));
        }
        let r = Lockfile { lockfile_version: LOCKFILE_VERSION, packages };
        proof {
            use_type_invariant(&r.packages);
            lemma_lock_by_key(r.packages, resolution.packages);
        }
        r
    }
}

/// A lockfile locks every package of the resolution under its own name, and
/// nothing else: under each name, the entry is that package's version text,
/// tarball URL and integrity.
pub proof fn lemma_lock_by_key(l: KeyedMap<LockedPackage>, m: KeyedMap<ResolvedPackage>)
    requires
        l.wf(),
        m.wf(),
        lock_entries(l) == expected_entries(m),
    ensures
        forall|k: Seq<char>| #[trigger] l.lookup(k) is Some <==> m.lookup(k) is Some,
        forall|k: Seq<char>|
            #[trigger] m.lookup(k) is Some ==> locked_view(l.lookup(k)->0) == locked_entry(m.lookup(k)->0),
{
    assert(l.size() == lock_entries(l).len());
    assert(m.size() == expected_entries(m).len());
    assert forall|i: int| 0 <= i < l.size() implies l.keys()[i] == m.keys()[i] && locked_view(
        l.values()[i],
    ) == locked_entry(m.values()[i]) by {
        assert(lock_entries(l)[i] == expected_entries(m)[i]);
    }
    assert(l.keys() =~= m.keys());
    assert forall|k: Seq<char>|
        #[trigger] m.lookup(k) is Some implies locked_view(l.lookup(k)->0) == locked_entry(m.lookup(k)->0) by {
        crate::keyed::lemma_first_index(m.keys(), k);
        let i = crate::keyed::first_index(m.keys(), k);
        assert(l.lookup(k)->0 == l.values()[i]);
        assert(m.lookup(k)->0 == m.values()[i]);
    }
}

/// A lockfile depends only on what the resolution holds, not on the order in
/// which its packages were inserted: resolutions that agree on every package
/// lock to the same entries in the same order.
pub proof fn lemma_lock_entries_deterministic(a: Resolution, b: Resolution)
    requires
        a.packages.wf(),
        b.packages.wf(),
        forall|k: Seq<char>| a.packages.lookup(k) == b.packages.lookup(k),
    ensures
        expected_entries(a.packages) == expected_entries(b.packages),
{
    lemma_same_contents_same_layout(a.packages, b.packages);
    assert(expected_entries(a.packages) =~= expected_entries(b.packages));
}

} // verus!
