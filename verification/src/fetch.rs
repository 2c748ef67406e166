//! Gathering packuments: a breadth-first walk of the dependency graph from the
//! manifest's direct dependencies that asks for each reachable package exactly
//! once.
//!
//! The walk is a state machine so that the network stays outside it: the
//! caller asks [`Fetcher::next_request`] which package to download, downloads
//! it, and hands the packument back through [`Fetcher::record`], until no
//! request is left; [`Fetcher::finish`] then yields the cache the solver reads.

use vstd::prelude::*;

use crate::keyed::{lemma_first_index, KeyedMap};
use crate::error::QuayError;
use crate::registry::Packument;
use crate::resolver::{all_parse, parse_req, spec_parse_req};
use crate::solver::meta_dep_names;

verus! {

/// The names of a list of strings, by their characters.
pub open spec fn names_of(v: Seq<String>) -> Seq<Seq<char>> {
    v.map_values(|s: String| s@)
}

/// The package names of the manifest's direct requirements, in order.
pub open spec fn direct_names(direct: Seq<(String, String)>) -> Seq<Seq<char>> {
    direct.map_values(|p: (String, String)| p.0@)
}

/// Appends each of `names`, in order, that is not already present.
pub open spec fn enqueue(seen: Seq<Seq<char>>, names: Seq<Seq<char>>) -> Seq<Seq<char>>
    decreases names.len(),
{
    if names.len() == 0 {
        seen
    } else {
        let s = enqueue(seen, names.drop_last());
        if s.contains(names.last()) {
            s
        } else {
            s.push(names.last())
        }
    }
}

/// Why the `i`-th discovered name is there: it is a root, or a dependency
/// name of some version of the packument of an earlier discovered name.
pub open spec fn justified(
    discovered: Seq<Seq<char>>,
    roots: Seq<Seq<char>>,
    cache: KeyedMap<Packument>,
    i: int,
) -> bool {
    roots.contains(discovered[i]) || exists|j: int|
        0 <= j < i && cache.lookup(discovered[j]) is Some && #[trigger] meta_dep_names(
            cache.lookup(discovered[j])->0.versions.values(),
        ).contains(discovered[i])
}

/// No name occurs twice.
pub open spec fn no_repeats(s: Seq<Seq<char>>) -> bool {
    forall|a: int, b: int| 0 <= a < b < s.len() ==> s[a] != s[b]
}

/// Every root and every dependency named by any version of any cached
/// packument has a packument in the cache.
pub open spec fn closed_cache(cache: KeyedMap<Packument>, roots: Seq<Seq<char>>) -> bool {
    &&& forall|i: int| 0 <= i < roots.len() ==> (#[trigger] cache.lookup(roots[i])) is Some
    &&& forall|k: Seq<char>, j: int, d: Seq<char>|
        cache.lookup(k) is Some && 0 <= j < cache.lookup(k)->0.versions.size()
            && #[trigger] cache.lookup(k)->0.versions.values()[j].dependencies.keys().contains(d)
            ==> cache.lookup(d) is Some
}

/// The state of the walk: the names discovered so far, in discovery order;
/// how many of them have been downloaded; and the packuments downloaded.
pub struct Fetcher {
    seen: Vec<String>,
    next: usize,
    cache: KeyedMap<Packument>,
    roots: Ghost<Seq<Seq<char>>>,
}

impl Fetcher {
    /// Names discovered so far, in the order they were first seen. Those from
    /// position `requested()` on are still waiting to be downloaded.
    pub closed spec fn discovered(&self) -> Seq<Seq<char>> {
        names_of(self.seen@)
    }

    /// How many discovered names have been downloaded.
    pub closed spec fn requested(&self) -> nat {
        self.next as nat
    }

    /// The packuments downloaded so far, by requested name.
    pub closed spec fn fetched(&self) -> KeyedMap<Packument> {
        self.cache
    }

    /// The direct dependency names the walk started from.
    pub closed spec fn roots(&self) -> Seq<Seq<char>> {
        self.roots@
    }

    /// The walk's bookkeeping is consistent: nothing is discovered twice, the
    /// downloaded names are exactly the first `requested()` discovered ones,
    /// and every name a downloaded packument mentions has been discovered.
    pub closed spec fn wf(&self) -> bool {
        &&& no_repeats(self.discovered())
        &&& self.next <= self.discovered().len()
        &&& forall|i: int|
            0 <= i < self.roots@.len() ==> self.discovered().contains(#[trigger] self.roots@[i])
        &&& forall|k: Seq<char>| #[trigger]
            self.cache.keys().contains(k) <==> self.discovered().take(self.next as int).contains(k)
        &&& forall|k: Seq<char>, d: Seq<char>|
            self.cache.lookup(k) is Some && #[trigger] meta_dep_names(
                self.cache.lookup(k)->0.versions.values(),
            ).contains(d) ==> self.discovered().contains(d)
        &&& forall|i: int|
            0 <= i < self.discovered().len() ==> #[trigger] justified(
                self.discovered(),
                self.roots@,
                self.cache,
                i,
            )
    }

    /// Starts a walk from the direct dependency names, each asked for once.
    pub fn new(roots: &Vec<String>) -> (f: Self)
        ensures
            f.discovered() == enqueue(Seq::empty(), names_of(roots@)),
            f.requested() == 0,
            f.fetched().size() == 0,
            f.roots() == names_of(roots@),
            no_repeats(f.discovered()),
            f.wf(),
    {
        let ghost rv = names_of(roots@);
        let mut seen: Vec<String> = Vec::new();
        let n = roots.len();
        let mut i: usize = 0;
        while i < n
            invariant
                n == roots@.len(),
                rv == names_of(roots@),
                i <= n,
                names_of(seen@) == enqueue(Seq::empty(), rv.take(i as int)),
                no_repeats(names_of(seen@)),
                forall|q: int| 0 <= q < i ==> names_of(seen@).contains(#[trigger] rv[q]),
                forall|q: int| 0 <= q < names_of(seen@).len() ==> rv.contains(#[trigger] names_of(seen@)[q]),
            decreases n - i,
        {
            let ghost before = names_of(seen@);
            let name = &roots[i];
            assert(rv.take(i + 1).drop_last() =~= rv.take(i as int));
            if !contains_name(&seen, name.as_str()) {
                seen.push(name.clone());
                assert(names_of(seen@) =~= before.push(name@));
                assert(names_of(seen@)[before.len() as int] == name@);
            }
            proof {
                assert(rv[i as int] == name@);
                assert forall|q: int| 0 <= q < names_of(seen@).len() implies rv.contains(
                    #[trigger] names_of(seen@)[q],
                ) by {
                    if q < before.len() {
                        assert(names_of(seen@)[q] == before[q]);
                    }
                }
                assert forall|q: int| 0 <= q < i + 1 implies names_of(seen@).contains(#[trigger] rv[q]) by {
                    if q < i {
                        let w = choose|w: int| 0 <= w < before.len() && before[w] == rv[q];
                        assert(names_of(seen@)[w] == rv[q]);
                    } else {
                        assert(names_of(seen@).contains(name@));
                    }
                }
            }
            i = i + 1;
        }
        assert(rv.take(n as int) =~= rv);
        let cache: KeyedMap<Packument> = KeyedMap::new();
        let f = Fetcher { seen, next: 0, cache, roots: Ghost(rv) };
        proof {
            assert forall|k: Seq<char>| #[trigger] cache.keys().contains(k) <==> names_of(seen@).take(0).contains(k) by {}
            assert forall|i: int| 0 <= i < names_of(seen@).len() implies #[trigger] justified(
                names_of(seen@),
                rv,
                cache,
                i,
            ) by {
                assert(rv.contains(names_of(seen@)[i]));
            }
        }
        f
    }

    /// Checks every direct requirement first, so that a bad range fails
    /// before anything is downloaded, then starts a walk from the direct
    /// dependency names.
    pub fn start(direct: &Vec<(String, String)>) -> (r: Result<Self, QuayError>)
        ensures
            r is Err <==> !all_parse(direct@),
            r matches Err(e) ==> (e matches QuayError::InvalidVersionReq(raw, _) && exists|i: int|
                0 <= i < direct@.len() && raw@ == direct@[i].1@ && spec_parse_req(direct@[i].1@) is None
                    && forall|j: int| 0 <= j < i ==> #[trigger] spec_parse_req(direct@[j].1@) is Some),
            r matches Ok(f) ==> {
                &&& f.discovered() == enqueue(Seq::empty(), direct_names(direct@))
                &&& f.requested() == 0
                &&& f.fetched().size() == 0
                &&& f.roots() == direct_names(direct@)
                &&& no_repeats(f.discovered())
                &&& f.wf()
            },
    {
        let n = direct.len();
        let mut names: Vec<String> = Vec::new();
        let mut i: usize = 0;
        while i < n
            invariant
                n == direct@.len(),
                i <= n,
                names@.len() == i,
                forall|q: int| 0 <= q < i ==> (#[trigger] names@[q])@ == direct@[q].0@,
                forall|q: int| 0 <= q < i ==> (#[trigger] spec_parse_req(direct@[q].1@)) is Some,
            decreases n - i,
        {
            match parse_req(direct[i].1.as_str()) {
                Ok(_) => {},
                Err(e) => {
                    return Err(e);
                },
            }
            names.push(direct[i].0.clone());
            i = i + 1;
        }
        assert(names_of(names@) =~= direct_names(direct@));
        Ok(Fetcher::new(&names))
    }

    /// The package to download next, if any is left.
    pub fn next_request(&self) -> (r: Option<String>)
        requires
            self.wf(),
        ensures
            self.requested() < self.discovered().len() ==> (r matches Some(s) && s@
                == self.discovered()[self.requested() as int]),
            self.requested() >= self.discovered().len() ==> r is None,
    {
        if self.next < self.seen.len() {
            Some(self.seen[self.next].clone())
        } else {
            None
        }
    }

    /// Takes in the packument of the package `next_request` named: every
    /// dependency name of every version (versions in key order, dependencies
    /// in key order) that was not seen before is queued, and the packument is
    /// cached under the requested name. Without a pending request nothing
    /// changes.
    pub fn record(&mut self, packument: Packument)
        requires
            old(self).wf(),
        ensures
            final(self).wf(),
            old(self).requested() >= old(self).discovered().len() ==> *final(self) == *old(self),
            old(self).requested() < old(self).discovered().len() ==> {
                let name = old(self).discovered()[old(self).requested() as int];
                &&& final(self).discovered() == enqueue(
                    old(self).discovered(),
                    meta_dep_names(packument.versions.values()),
                )
                &&& final(self).requested() == old(self).requested() + 1
                &&& forall|k: Seq<char>| #[trigger]
                    final(self).fetched().lookup(k) == if k == name {
                        Some(packument)
                    } else {
                        old(self).fetched().lookup(k)
                    }
                &&& final(self).roots() == old(self).roots()
                &&& no_repeats(final(self).discovered())
            },
    {
        if self.next >= self.seen.len() {
            return;
        }
        let ghost s0 = names_of(self.seen@);
        let ghost vals = packument.versions.values();
        let mut seen: Vec<String> = Vec::new();
        std::mem::swap(&mut seen, &mut self.seen);
        let name = seen[self.next].clone();
        assert(name@ == s0[self.next as int]);
        let nv = packument.versions.len();
        let mut i: usize = 0;
        while i < nv
            invariant
                nv == vals.len(),
                vals == packument.versions.values(),
                i <= nv,
                names_of(seen@) == enqueue(s0, meta_dep_names(vals.take(i as int))),
                no_repeats(names_of(seen@)),
                s0.len() <= names_of(seen@).len(),
                forall|q: int| 0 <= q < s0.len() ==> names_of(seen@)[q] == s0[q],
                forall|d: Seq<char>| #[trigger] meta_dep_names(vals.take(i as int)).contains(d) ==> names_of(seen@).contains(d),
                forall|q: int|
                    s0.len() <= q < names_of(seen@).len() ==> meta_dep_names(vals).contains(
                        #[trigger] names_of(seen@)[q],
                    ),
            decreases nv - i,
        {
            let meta = packument.versions.value_at(i);
            let ghost done = meta_dep_names(vals.take(i as int));
            let ghost keys = meta.dependencies.keys();
            let nd = meta.dependencies.len();
            let mut j: usize = 0;
            while j < nd
                invariant
                    nd == keys.len(),
                    keys == meta.dependencies.keys(),
                    j <= nd,
                    names_of(seen@) == enqueue(s0, done + keys.take(j as int)),
                    no_repeats(names_of(seen@)),
                    s0.len() <= names_of(seen@).len(),
                    forall|q: int| 0 <= q < s0.len() ==> names_of(seen@)[q] == s0[q],
                    forall|d: Seq<char>| #[trigger] (done + keys.take(j as int)).contains(d) ==> names_of(seen@).contains(d),
                    forall|q: int|
                        s0.len() <= q < names_of(seen@).len() ==> meta_dep_names(vals).contains(
                            #[trigger] names_of(seen@)[q],
                        ),
                    i < nv,
                    nv == vals.len(),
                    vals[i as int] == *meta,
                decreases nd - j,
            {
                let ghost before = names_of(seen@);
                let ghost upto = done + keys.take(j as int);
                let dep = meta.dependencies.key_at(j);
                assert((done + keys.take(j + 1)) =~= upto.push(dep@));
                assert(upto.push(dep@).drop_last() =~= upto);
                if !contains_name(&seen, dep.as_str()) {
                    seen.push(dep.clone());
                    assert(names_of(seen@) =~= before.push(dep@));
                    assert(names_of(seen@)[before.len() as int] == dep@);
                }
                proof {
                    assert(keys.contains(dep@)) by {
                        assert(keys[j as int] == dep@);
                    }
                    crate::solver::lemma_meta_dep_names(vals, i as int, dep@);
                    assert forall|q: int|
                        s0.len() <= q < names_of(seen@).len() implies meta_dep_names(vals).contains(
                        #[trigger] names_of(seen@)[q],
                    ) by {
                        if q < before.len() {
                            assert(names_of(seen@)[q] == before[q]);
                        }
                    }
                    assert forall|d: Seq<char>| #[trigger] (done + keys.take(j + 1)).contains(d) implies names_of(seen@).contains(d) by {
                        let w = choose|w: int| 0 <= w < upto.push(dep@).len() && upto.push(dep@)[w] == d;
                        if w < upto.len() {
                            assert(upto[w] == d);
                            assert(upto.contains(d));
                            let x = choose|x: int| 0 <= x < before.len() && before[x] == d;
                            assert(names_of(seen@)[x] == d);
                        } else {
                            assert(names_of(seen@).contains(dep@));
                        }
                    }
                }
                j = j + 1;
            }
            proof {
                assert(keys.take(nd as int) =~= keys);
                assert(vals.take(i + 1).drop_last() =~= vals.take(i as int));
                assert(meta_dep_names(vals.take(i + 1)) == done + keys);
            }
            i = i + 1;
        }
        proof {
            assert(vals.take(nv as int) =~= vals);
        }
        let ghost old_cache = self.cache;
        let ghost s1 = names_of(seen@);
        self.cache.insert(name, packument);
        self.seen = seen;
        self.next = self.next + 1;
        proof {
            let nx = self.next as int;
            assert(s1.take(nx) =~= s0.take(nx - 1).push(s0[nx - 1]));
            assert forall|k: Seq<char>| #[trigger]
                self.cache.keys().contains(k) <==> s1.take(nx).contains(k) by {
                if k == name@ {
                    assert(s1.take(nx)[nx - 1] == k);
                }
                if s1.take(nx).contains(k) && k != name@ {
                    let w = choose|w: int| 0 <= w < nx && s1.take(nx)[w] == k;
                    assert(s0.take(nx - 1)[w] == k);
                }
                assert(self.cache.keys().to_set().contains(k) == old_cache.keys().to_set().insert(name@).contains(k));
                if s0.take(nx - 1).contains(k) {
                    assert(old_cache.keys().contains(k));
                }
                if old_cache.keys().contains(k) {
                    assert(s0.take(nx - 1).contains(k));
                    let w = choose|w: int| 0 <= w < nx - 1 && #[trigger] s0.take(nx - 1)[w] == k;
                    assert(s1.take(nx)[w] == k);
                }
            }
            assert forall|k: Seq<char>, d: Seq<char>|
                self.cache.lookup(k) is Some && #[trigger] meta_dep_names(
                    self.cache.lookup(k)->0.versions.values(),
                ).contains(d) implies s1.contains(d) by {
                if k != name@ {
                    let p = old_cache.lookup(k)->0;
                    assert(old_cache.lookup(k) is Some && meta_dep_names(old_cache.lookup(k)->0.versions.values()).contains(d));
                    let x = choose|x: int| 0 <= x < s0.len() && s0[x] == d;
                    assert(s1[x] == d);
                }
            }
            assert forall|i: int| 0 <= i < self.roots@.len() implies s1.contains(#[trigger] self.roots@[i]) by {
                let x = choose|x: int| 0 <= x < s0.len() && s0[x] == self.roots@[i];
                assert(s1[x] == self.roots@[i]);
            }
            assert forall|i: int| 0 <= i < s1.len() implies #[trigger] justified(
                s1,
                self.roots@,
                self.cache,
                i,
            ) by {
                if i < s0.len() {
                    assert(justified(s0, self.roots@, old_cache, i));
                    assert(s1[i] == s0[i]);
                    if !self.roots@.contains(s0[i]) {
                        let j = choose|j: int|
                            0 <= j < i && old_cache.lookup(s0[j]) is Some && #[trigger] meta_dep_names(
                                old_cache.lookup(s0[j])->0.versions.values(),
                            ).contains(s0[i]);
                        lemma_first_index(old_cache.keys(), s0[j]);
                        assert(old_cache.keys().contains(s0[j]));
                        assert(s0.take(nx - 1).contains(s0[j]));
                        let w = choose|w: int| 0 <= w < nx - 1 && #[trigger] s0.take(nx - 1)[w] == s0[j];
                        assert(s0[w] == s0[j]);
                        assert(s0[j] != s0[nx - 1]);
                        assert(s1[j] == s0[j]);
                        assert(self.cache.lookup(s1[j]) == old_cache.lookup(s0[j]));
                        assert(0 <= j < i && self.cache.lookup(s1[j]) is Some && meta_dep_names(
                            self.cache.lookup(s1[j])->0.versions.values(),
                        ).contains(s1[i]));
                    } else {
                        assert(self.roots@.contains(s1[i]));
                    }
                } else {
                    assert(s1[nx - 1] == name@);
                    assert(self.cache.lookup(s1[nx - 1]) == Some(packument));
                    assert(meta_dep_names(packument.versions.values()).contains(s1[i]));
                    assert(0 <= nx - 1 < i && self.cache.lookup(s1[nx - 1]) is Some && meta_dep_names(
                        self.cache.lookup(s1[nx - 1])->0.versions.values(),
                    ).contains(s1[i]));
                }
            }
        }
    }

    /// The cache, once every discovered package has been downloaded; `None`
    /// while requests are pending. A finished cache holds a packument for
    /// every root and for every dependency any cached version names.
    pub fn finish(self) -> (r: Option<KeyedMap<Packument>>)
        requires
            self.wf(),
        ensures
            r is Some <==> self.requested() == self.discovered().len(),
            r matches Some(c) ==> c == self.fetched() && closed_cache(c, self.roots()),
            r matches Some(c) ==> forall|k: Seq<char>|
                #[trigger] c.lookup(k) is Some <==> self.discovered().contains(k),
            r matches Some(c) ==> no_repeats(self.discovered()) && forall|i: int|
                0 <= i < self.discovered().len() ==> #[trigger] justified(
                    self.discovered(),
                    self.roots(),
                    c,
                    i,
                ),
    {
        if self.next < self.seen.len() {
            return None;
        }
        proof {
            let seen = names_of(self.seen@);
            assert(seen.take(self.next as int) =~= seen);
            assert forall|i: int| 0 <= i < self.roots@.len() implies (#[trigger] self.cache.lookup(self.roots@[i])) is Some by {
                lemma_first_index(self.cache.keys(), self.roots@[i]);
            }
            assert forall|k: Seq<char>, j: int, d: Seq<char>|
                self.cache.lookup(k) is Some && 0 <= j < self.cache.lookup(k)->0.versions.size()
                    && #[trigger] self.cache.lookup(k)->0.versions.values()[j].dependencies.keys().contains(d)
                    implies self.cache.lookup(d) is Some by {
                let p = self.cache.lookup(k)->0;
                crate::solver::lemma_meta_dep_names(p.versions.values(), j, d);
                lemma_first_index(self.cache.keys(), d);
            }
            assert forall|k: Seq<char>| #[trigger] self.cache.lookup(k) is Some <==> seen.contains(k) by {
                lemma_first_index(self.cache.keys(), k);
            }
        }
        Some(self.cache)
    }
}

/// Whether `name` is one of `names`.
fn contains_name(names: &Vec<String>, name: &str) -> (r: bool)
    ensures
        r == names_of(names@).contains(name@),
{
    let n = names.len();
    let mut i: usize = 0;
    while i < n
        invariant
            n == names@.len(),
            i <= n,
            forall|q: int| 0 <= q < i ==> names_of(names@)[q] != name@,
        decreases n - i,
    {
        if crate::text::str_eq(names[i].as_str(), name) {
            assert(names_of(names@)[i as int] == name@);
            return true;
        }
        i = i + 1;
    }
    false
}

} // verus!
