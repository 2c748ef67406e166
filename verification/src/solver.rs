//! The backtracking search over cached packuments, and the model it is proved
//! against: which assignments of versions to packages count as solutions.

use vstd::prelude::*;

use crate::keyed::{first_index, lemma_first_index, strictly_sorted, KeyedMap};
use crate::registry::{Packument, VersionMeta};
use crate::package::{label, label_text};
use crate::resolver::{parse_req, spec_parse_req, Conflict, ConflictingRequirement, Constraint};
use crate::text::seq_lt;
use crate::versions::{req_matches, semver_lt, semver_parse, version_text, SemVer, SemanticVersion};

verus! {

/// Requirements from the manifest, in order: package name and the parsed
/// requirement (`None` meaning any release).
pub type RootReqs = Seq<(Seq<char>, Option<Seq<char>>)>;

/// The first version key at or after `i` that parses to `v`, or -1.
pub open spec fn version_index_from(keys: Seq<Seq<char>>, v: SemVer, i: int) -> int
    decreases keys.len() - i,
{
    if i < 0 || i >= keys.len() {
        -1
    } else if semver_parse(keys[i]) == Some(v) {
        i
    } else {
        version_index_from(keys, v, i + 1)
    }
}

/// The first version key of `p` that parses to `v`, or -1.
pub open spec fn version_index(p: Packument, v: SemVer) -> int {
    version_index_from(p.versions.keys(), v, 0)
}

/// `v` is a published version of `name` in the cache.
pub open spec fn offered(cache: KeyedMap<Packument>, name: Seq<char>, v: SemVer) -> bool {
    match cache.lookup(name) {
        Some(p) => version_index(p, v) != -1,
        None => false,
    }
}

/// The metadata of `name@v` that the solver reads: that of the first version
/// key that parses to `v`.
pub open spec fn meta_of(cache: KeyedMap<Packument>, name: Seq<char>, v: SemVer) -> VersionMeta {
    match cache.lookup(name) {
        Some(p) => p.versions.values()[version_index(p, v)],
        None => arbitrary(),
    }
}

/// `m` declares a dependency on `dep` whose range parses to `req`. A range
/// that does not parse declares nothing; it makes the whole version unusable
/// instead (see `usable`).
pub open spec fn declares(m: VersionMeta, dep: Seq<char>, req: Option<Seq<char>>) -> bool {
    exists|i: int|
        0 <= i < m.dependencies.size() && #[trigger] m.dependencies.keys()[i] == dep
            && spec_parse_req(m.dependencies.values()[i]@) == Some(req)
}

/// Every dependency range of `m` parses. A version with a range that cannot
/// be parsed cannot be satisfied, so it is never selected.
pub open spec fn usable(m: VersionMeta) -> bool {
    forall|i: int|
        0 <= i < m.dependencies.size() ==> (#[trigger] spec_parse_req(m.dependencies.values()[i]@)) is Some
}

/// The manifest asks for `name` with requirement `req`.
pub open spec fn root_requires(roots: RootReqs, name: Seq<char>, req: Option<Seq<char>>) -> bool {
    exists|i: int| 0 <= i < roots.len() && #[trigger] roots[i] == (name, req)
}

/// Every requirement of the manifest, and of every selected version, is met
/// by the selection, and every selected version is published and usable.
pub open spec fn closed_solution(
    cache: KeyedMap<Packument>,
    roots: RootReqs,
    s: Map<Seq<char>, SemVer>,
) -> bool {
    &&& forall|i: int|
        0 <= i < roots.len() ==> s.contains_key(#[trigger] roots[i].0) && req_matches(
            roots[i].1,
            s[roots[i].0],
        )
    &&& forall|n: Seq<char>| #[trigger]
        s.contains_key(n) ==> offered(cache, n, s[n]) && usable(meta_of(cache, n, s[n]))
    &&& forall|n: Seq<char>, d: Seq<char>, r: Option<Seq<char>>|
        s.contains_key(n) && #[trigger] declares(meta_of(cache, n, s[n]), d, r) ==> s.contains_key(
            d,
        ) && req_matches(r, s[d])
}

/// Every selected package is asked for by the manifest or by another
/// selected version.
pub open spec fn demanded(cache: KeyedMap<Packument>, roots: RootReqs, s: Map<Seq<char>, SemVer>) -> bool {
    forall|n: Seq<char>| #[trigger]
        s.contains_key(n) ==> (exists|r: Option<Seq<char>>| root_requires(roots, n, r)) || (exists|
            m: Seq<char>,
            r: Option<Seq<char>>,
        | s.contains_key(m) && #[trigger] declares(meta_of(cache, m, s[m]), n, r))
}

/// `s` agrees with every pin of `t`.
pub open spec fn extends(s: Map<Seq<char>, SemVer>, t: Map<Seq<char>, SemVer>) -> bool {
    forall|k: Seq<char>| #[trigger] t.contains_key(k) ==> s.contains_key(k) && s[k] == t[k]
}

/// The versions an assignment pins, by package name.
pub open spec fn selection(a: KeyedMap<SemanticVersion>) -> Map<Seq<char>, SemVer> {
    Map::new(
        |k: Seq<char>| a.keys().contains(k),
        |k: Seq<char>|
            match a.lookup(k) {
                Some(v) => v@,
                None => arbitrary(),
            },
    )
}

/// The constraint map holds requirement `r` on package `n`.
pub open spec fn has_con(cons: KeyedMap<Vec<Constraint>>, n: Seq<char>, r: Option<Seq<char>>) -> bool {
    exists|i: int, j: int|
        0 <= i < cons.size() && cons.keys()[i] == n && 0 <= j < cons.values()[i]@.len() && (
        #[trigger] cons.values()[i]@[j]).req@ == r
}

/// Some pinned version declares requirement `r` on `n`.
pub open spec fn pinned_declares(
    cache: KeyedMap<Packument>,
    a: KeyedMap<SemanticVersion>,
    n: Seq<char>,
    r: Option<Seq<char>>,
) -> bool {
    exists|m: Seq<char>|
        #[trigger] selection(a).contains_key(m) && declares(
            meta_of(cache, m, selection(a)[m]),
            n,
            r,
        )
}

/// The search state is consistent: the constraints are exactly those of the
/// manifest and of the pinned versions, each constrained package has at least
/// one requirement, and every pinned package is constrained and published.
pub open spec fn search_inv(
    cache: KeyedMap<Packument>,
    roots: RootReqs,
    cons: KeyedMap<Vec<Constraint>>,
    a: KeyedMap<SemanticVersion>,
) -> bool {
    &&& cons.wf()
    &&& a.wf()
    &&& forall|n: Seq<char>, r: Option<Seq<char>>| #[trigger]
        has_con(cons, n, r) <==> (root_requires(roots, n, r) || pinned_declares(cache, a, n, r))
    &&& forall|i: int| 0 <= i < cons.size() ==> (#[trigger] cons.values()[i])@.len() > 0
    &&& forall|k: Seq<char>| #[trigger]
        a.keys().contains(k) ==> cons.keys().contains(k) && offered(cache, k, selection(a)[k])
            && usable(meta_of(cache, k, selection(a)[k]))
}

/// The dependency names of a list of versions, in order.
pub open spec fn meta_dep_names(ms: Seq<VersionMeta>) -> Seq<Seq<char>>
    decreases ms.len(),
{
    if ms.len() == 0 {
        Seq::empty()
    } else {
        meta_dep_names(ms.drop_last()) + ms.last().dependencies.keys()
    }
}

/// The dependency names of every version of every cached packument.
pub open spec fn cache_dep_names(ps: Seq<Packument>) -> Seq<Seq<char>>
    decreases ps.len(),
{
    if ps.len() == 0 {
        Seq::empty()
    } else {
        cache_dep_names(ps.drop_last()) + meta_dep_names(ps.last().versions.values())
    }
}

/// Every package name the search can ever constrain.
pub open spec fn universe(cache: KeyedMap<Packument>, roots: RootReqs) -> Set<Seq<char>> {
    (roots.map_values(|x: (Seq<char>, Option<Seq<char>>)| x.0) + cache_dep_names(
        cache.values(),
    )).to_set()
}

/// The packages asked for by the manifest or by a version pinned in `p`.
pub open spec fn constrained(
    cache: KeyedMap<Packument>,
    roots: RootReqs,
    p: Map<Seq<char>, SemVer>,
) -> Set<Seq<char>> {
    Set::new(
        |n: Seq<char>|
            (exists|r: Option<Seq<char>>| root_requires(roots, n, r)) || (exists|
                m: Seq<char>,
                r: Option<Seq<char>>,
            | p.contains_key(m) && #[trigger] declares(meta_of(cache, m, p[m]), n, r)),
    )
}

/// `n` is the package decided next from the pins `p`: it is asked for, not
/// pinned yet, and first in key order among such packages.
pub open spec fn is_next(
    cache: KeyedMap<Packument>,
    roots: RootReqs,
    p: Map<Seq<char>, SemVer>,
    n: Seq<char>,
) -> bool {
    &&& constrained(cache, roots, p).contains(n)
    &&& !p.contains_key(n)
    &&& forall|m: Seq<char>|
        #[trigger] constrained(cache, roots, p).contains(m) && !p.contains_key(m) && m != n
            ==> seq_lt(n, m)
}

/// The pins of `s` on the packages pinned in `p0` and on the first `i`
/// packages of `order`.
pub open spec fn pins_before(
    p0: Map<Seq<char>, SemVer>,
    s: Map<Seq<char>, SemVer>,
    order: Seq<Seq<char>>,
    i: int,
) -> Map<Seq<char>, SemVer> {
    Map::new(|k: Seq<char>| p0.contains_key(k) || order.take(i).contains(k), |k: Seq<char>| s[k])
}

/// No solution that agrees with the pins `p` pins `n` to a version other
/// than `s[n]` and ordered above it.
pub open spec fn highest_at(
    cache: KeyedMap<Packument>,
    roots: RootReqs,
    p: Map<Seq<char>, SemVer>,
    n: Seq<char>,
    s: Map<Seq<char>, SemVer>,
) -> bool {
    forall|t: Map<Seq<char>, SemVer>|
        closed_solution(cache, roots, t) && #[trigger] extends(t, p) && t.contains_key(n) && t[n]
            != s[n] ==> !semver_lt(s[n], t[n])
}

/// `s` is what the search settles on from the pins `p0` when it decides the
/// packages of `order` one after the other: each is the next package in key
/// order that is asked for and not pinned yet, and gets the highest version
/// that some solution agreeing with the earlier decisions allows. Nothing
/// else is pinned.
pub open spec fn decided(
    cache: KeyedMap<Packument>,
    roots: RootReqs,
    p0: Map<Seq<char>, SemVer>,
    order: Seq<Seq<char>>,
    s: Map<Seq<char>, SemVer>,
) -> bool {
    &&& s.dom() == p0.dom().union(order.to_set())
    &&& forall|i: int|
        0 <= i < order.len() ==> is_next(cache, roots, pins_before(p0, s, order, i), #[trigger] order[i])
            && highest_at(cache, roots, pins_before(p0, s, order, i), order[i], s)
}

/// In a consistent search state, the packages with constraints are exactly
/// those asked for by the manifest or by a pinned version.
proof fn lemma_constrained_keys(
    cache: KeyedMap<Packument>,
    roots: RootReqs,
    cons: KeyedMap<Vec<Constraint>>,
    a: KeyedMap<SemanticVersion>,
)
    requires
        search_inv(cache, roots, cons, a),
    ensures
        forall|n: Seq<char>|
            #[trigger] constrained(cache, roots, selection(a)).contains(n) <==> cons.keys().contains(n),
{
    assert forall|n: Seq<char>|
        #[trigger] constrained(cache, roots, selection(a)).contains(n) <==> cons.keys().contains(n) by {
        if cons.keys().contains(n) {
            let i = choose|i: int| 0 <= i < cons.keys().len() && cons.keys()[i] == n;
            let r = cons.values()[i]@[0].req@;
            assert(has_con(cons, n, r));
            if !root_requires(roots, n, r) {
                assert(pinned_declares(cache, a, n, r));
                let m = choose|m: Seq<char>|
                    #[trigger] selection(a).contains_key(m) && declares(
                        meta_of(cache, m, selection(a)[m]),
                        n,
                        r,
                    );
                assert(selection(a).contains_key(m) && declares(
                    meta_of(cache, m, selection(a)[m]),
                    n,
                    r,
                ));
            }
        }
        if constrained(cache, roots, selection(a)).contains(n) {
            let r = if exists|r: Option<Seq<char>>| root_requires(roots, n, r) {
                choose|r: Option<Seq<char>>| root_requires(roots, n, r)
            } else {
                let (m, r) = choose|m: Seq<char>, r: Option<Seq<char>>|
                    selection(a).contains_key(m) && #[trigger] declares(
                        meta_of(cache, m, selection(a)[m]),
                        n,
                        r,
                    );
                assert(pinned_declares(cache, a, n, r));
                r
            };
            assert(has_con(cons, n, r));
            let (i, j) = choose|i: int, j: int|
                0 <= i < cons.size() && cons.keys()[i] == n && 0 <= j < cons.values()[i]@.len() && (
                #[trigger] cons.values()[i]@[j]).req@ == r;
            assert(cons.keys()[i] == n);
        }
    }
}

/// With nothing left to decide, the pins stay as they are.
proof fn lemma_decided_nothing(cache: KeyedMap<Packument>, roots: RootReqs, a: Map<Seq<char>, SemVer>)
    ensures
        exists|order: Seq<Seq<char>>| #[trigger] decided(cache, roots, a, order, a),
{
    let none = Seq::<Seq<char>>::empty();
    assert(a.dom() =~= a.dom().union(none.to_set()));
    assert(decided(cache, roots, a, none, a));
}

/// If the candidates of the next package are tried highest first, every
/// earlier one leaves no solution, and the search from the `idx`-th one
/// settles on `s`, then deciding that package first and then the rest settles
/// on `s` too.
proof fn lemma_decided_step(
    cache: KeyedMap<Packument>,
    roots: RootReqs,
    a: Map<Seq<char>, SemVer>,
    name: Seq<char>,
    cands: Seq<SemanticVersion>,
    idx: int,
    s: Map<Seq<char>, SemVer>,
)
    requires
        0 <= idx < cands.len(),
        is_next(cache, roots, a, name),
        descending(cands),
        forall|q: int, t: Map<Seq<char>, SemVer>|
            0 <= q < idx && closed_solution(cache, roots, t) ==> !#[trigger] extends(
                t,
                a.insert(name, cands[q]@),
            ),
        forall|t: Map<Seq<char>, SemVer>|
            closed_solution(cache, roots, t) && extends(t, a) ==> t.contains_key(name)
                && #[trigger] holds_version(cands, t[name]),
        extends(s, a.insert(name, cands[idx]@)),
        exists|order: Seq<Seq<char>>| decided(cache, roots, a.insert(name, cands[idx]@), order, s),
    ensures
        exists|order: Seq<Seq<char>>| decided(cache, roots, a, order, s),
{
    let a2 = a.insert(name, cands[idx]@);
    let rest = choose|order: Seq<Seq<char>>| decided(cache, roots, a2, order, s);
    let order = seq![name] + rest;
    assert(s.contains_key(name) && s[name] == cands[idx]@) by {
        assert(a2.contains_key(name));
    }
    assert(a2 == a.insert(name, s[name]));
    // Where the pins are: those of `a`, the package decided now, and the rest.
    assert forall|k: Seq<char>| s.dom().contains(k) <==> a.dom().union(order.to_set()).contains(k) by {
        if rest.to_set().contains(k) {
            let w = choose|w: int| 0 <= w < rest.len() && rest[w] == k;
            assert(order[w + 1] == k);
        }
        if order.to_set().contains(k) && k != name {
            let w = choose|w: int| 0 <= w < order.len() && order[w] == k;
            assert(rest[w - 1] == k);
        }
        if k == name {
            assert(order[0] == k);
        }
    }
    assert(s.dom() =~= a.dom().union(order.to_set()));
    // The first decision.
    assert(pins_before(a, s, order, 0) =~= a) by {
        assert forall|k: Seq<char>| a.contains_key(k) implies s[k] == a[k] by {
            assert(a2.contains_key(k));
        }
    }
    assert forall|t: Map<Seq<char>, SemVer>|
        closed_solution(cache, roots, t) && #[trigger] extends(t, a) && t.contains_key(name) && t[name]
            != s[name] implies !semver_lt(s[name], t[name]) by {
        assert(holds_version(cands, t[name]));
        let q = choose|q: int| 0 <= q < cands.len() && (#[trigger] cands[q])@ == t[name];
        if q < idx {
            assert(extends(t, a.insert(name, cands[q]@)));
        } else if q > idx {
            assert(!semver_lt(cands[idx]@, cands[q]@));
        }
    }
    assert(highest_at(cache, roots, pins_before(a, s, order, 0), order[0], s));
    // The later ones are those of the rest.
    assert forall|i: int| 0 <= i < order.len() implies is_next(
        cache,
        roots,
        pins_before(a, s, order, i),
        #[trigger] order[i],
    ) && highest_at(cache, roots, pins_before(a, s, order, i), order[i], s) by {
        if i > 0 {
            lemma_pins_before_step(a, s, name, rest, i - 1);
            assert(is_next(cache, roots, pins_before(a2, s, rest, i - 1), rest[i - 1]));
        }
    }
    assert(decided(cache, roots, a, order, s));
}

/// Deciding `name` first and then the packages of `rest` from the pins `p0`
/// extended by `name`'s pin is deciding `name` followed by `rest` from `p0`.
proof fn lemma_pins_before_step(
    p0: Map<Seq<char>, SemVer>,
    s: Map<Seq<char>, SemVer>,
    name: Seq<char>,
    rest: Seq<Seq<char>>,
    i: int,
)
    requires
        0 <= i < rest.len(),
    ensures
        pins_before(p0, s, seq![name] + rest, i + 1) == pins_before(
            p0.insert(name, s[name]),
            s,
            rest,
            i,
        ),
        (seq![name] + rest)[i + 1] == rest[i],
{
    let order = seq![name] + rest;
    let x = pins_before(p0, s, order, i + 1);
    let y = pins_before(p0.insert(name, s[name]), s, rest, i);
    assert forall|k: Seq<char>| x.dom().contains(k) <==> y.dom().contains(k) by {
        if order.take(i + 1).contains(k) && k != name {
            let w = choose|w: int| 0 <= w < i + 1 && #[trigger] order.take(i + 1)[w] == k;
            assert(w > 0);
            assert(rest.take(i)[w - 1] == k);
        }
        if rest.take(i).contains(k) {
            let w = choose|w: int| 0 <= w < i && #[trigger] rest.take(i)[w] == k;
            assert(order.take(i + 1)[w + 1] == k);
        }
        if k == name {
            assert(order.take(i + 1)[0] == k);
        }
    }
    assert(x.dom() =~= y.dom());
    assert(x =~= y);
}

/// The manifest's requirements as written: package name and range text.
pub type RawReqs = Seq<(Seq<char>, Seq<char>)>;

/// `requester` really asked for `pkg` with the range `range`: either it is
/// `(root)` and the manifest lists that requirement, or it is `m@v` for a
/// published version `v` of `m` whose dependency on `pkg` is that range, and
/// the range parses.
pub open spec fn requirement_sound(
    cache: KeyedMap<Packument>,
    raws: RawReqs,
    pkg: Seq<char>,
    requester: Seq<char>,
    range: Seq<char>,
) -> bool {
    ||| requester == "(root)"@ && exists|q: int| 0 <= q < raws.len() && #[trigger] raws[q] == (pkg, range)
    ||| exists|m: Seq<char>, v: SemVer|
        #[trigger] label_text(m, v) == requester && offered(cache, m, v) && meta_of(
            cache,
            m,
            v,
        ).dependencies.lookup(pkg) is Some && meta_of(cache, m, v).dependencies.lookup(pkg)->0@
            == range && spec_parse_req(range) is Some
}

/// Every constraint recorded on every package was really asked for, and its
/// requirement is what its range text parses to.
pub open spec fn cons_sound(cache: KeyedMap<Packument>, raws: RawReqs, cons: KeyedMap<Vec<Constraint>>) -> bool {
    forall|n: Seq<char>, j: int|
        cons.lookup(n) is Some && 0 <= j < cons.lookup(n)->0@.len() ==> requirement_sound(
            cache,
            raws,
            n,
            (#[trigger] cons.lookup(n)->0@[j]).requester@,
            cons.lookup(n)->0@[j].raw@,
        ) && spec_parse_req(cons.lookup(n)->0@[j].raw@) == Some(cons.lookup(n)->0@[j].req@)
}

/// A conflict names at least one requirement, and every requirement it names
/// was really asked for, on the package it names.
pub open spec fn conflict_sound(cache: KeyedMap<Packument>, raws: RawReqs, c: Conflict) -> bool {
    &&& c.requirements@.len() > 0
    &&& forall|i: int|
        0 <= i < c.requirements@.len() ==> requirement_sound(
            cache,
            raws,
            c.package@,
            (#[trigger] c.requirements@[i]).requester@,
            c.requirements@[i].range@,
        )
}

/// Requirements as `(requester, range)` texts.
pub type ReqTexts = Seq<(Seq<char>, Seq<char>)>;

/// A list of constraints by their texts.
pub open spec fn con_texts(cs: Seq<Constraint>) -> ReqTexts {
    cs.map_values(|c: Constraint| (c.requester@, c.raw@))
}

/// The constraints recorded on `n`, by their texts.
pub open spec fn recorded(cons: KeyedMap<Vec<Constraint>>, n: Seq<char>) -> ReqTexts {
    match cons.lookup(n) {
        Some(cs) => con_texts(cs@),
        None => Seq::empty(),
    }
}

/// The requirements a conflict lists, by their texts.
pub open spec fn conflict_texts(c: Conflict) -> ReqTexts {
    c.requirements@.map_values(|r: ConflictingRequirement| (r.requester@, r.range@))
}

/// `v` meets every requirement of `reqs`, each range parsed.
pub open spec fn meets_texts(reqs: ReqTexts, v: SemVer) -> bool {
    forall|i: int| #![trigger reqs[i]] 0 <= i < reqs.len() ==> req_matches(spec_parse_req(reqs[i].1)->0, v)
}

/// The requirements the manifest makes on `n`, in manifest order.
pub open spec fn root_reqs_on(raws: RawReqs, n: Seq<char>) -> ReqTexts
    decreases raws.len(),
{
    if raws.len() == 0 {
        Seq::empty()
    } else {
        root_reqs_on(raws.drop_last(), n) + if raws.last().0 == n {
            seq![("(root)"@, raws.last().1)]
        } else {
            Seq::empty()
        }
    }
}

/// The requirement `m@v` makes on `n`, if its metadata names `n`.
pub open spec fn decl_on(cache: KeyedMap<Packument>, m: Seq<char>, v: SemVer, n: Seq<char>) -> ReqTexts {
    let deps = meta_of(cache, m, v).dependencies;
    if deps.lookup(n) is Some {
        seq![(label_text(m, v), deps.lookup(n)->0@)]
    } else {
        Seq::empty()
    }
}

/// The requirements the versions pinned in `order` make on `n`, in the order
/// they were pinned.
pub open spec fn pinned_reqs_on(
    cache: KeyedMap<Packument>,
    p: Map<Seq<char>, SemVer>,
    order: Seq<Seq<char>>,
    n: Seq<char>,
) -> ReqTexts
    decreases order.len(),
{
    if order.len() == 0 {
        Seq::empty()
    } else {
        pinned_reqs_on(cache, p, order.drop_last(), n) + decl_on(cache, order.last(), p[order.last()], n)
    }
}

/// Every requirement on `n` once the packages of `order` are pinned as in
/// `p`: the manifest's first, then those of the pinned versions.
pub open spec fn reqs_on(
    cache: KeyedMap<Packument>,
    raws: RawReqs,
    p: Map<Seq<char>, SemVer>,
    order: Seq<Seq<char>>,
    n: Seq<char>,
) -> ReqTexts {
    root_reqs_on(raws, n) + pinned_reqs_on(cache, p, order, n)
}

/// The constraint map records, for every package, exactly the requirements
/// on it, in order.
pub open spec fn cons_exact(
    cache: KeyedMap<Packument>,
    raws: RawReqs,
    cons: KeyedMap<Vec<Constraint>>,
    p: Map<Seq<char>, SemVer>,
    order: Seq<Seq<char>>,
) -> bool {
    forall|n: Seq<char>| #[trigger] recorded(cons, n) == reqs_on(cache, raws, p, order, n)
}

/// `n` may be pinned to `v` once the pins are `q`: `v` is published and
/// usable and meets every requirement made on `n` so far.
pub open spec fn admissible(
    cache: KeyedMap<Packument>,
    roots: RootReqs,
    q: Map<Seq<char>, SemVer>,
    n: Seq<char>,
    v: SemVer,
) -> bool {
    &&& offered(cache, n, v)
    &&& usable(meta_of(cache, n, v))
    &&& forall|r: Option<Seq<char>>|
        (root_requires(roots, n, r) || exists|m: Seq<char>|
            q.contains_key(m) && #[trigger] declares(meta_of(cache, m, q[m]), n, r)) ==> req_matches(r, v)
}

/// The search can reach the pins `p` by pinning the packages of `order` one
/// by one: each is the next package in key order that is asked for and not
/// pinned yet, and gets a version that meets every requirement made on it.
pub open spec fn reached(
    cache: KeyedMap<Packument>,
    roots: RootReqs,
    p: Map<Seq<char>, SemVer>,
    order: Seq<Seq<char>>,
) -> bool {
    &&& p.dom() == order.to_set()
    &&& forall|i: int|
        0 <= i < order.len() ==> is_next(cache, roots, pins_before(Map::empty(), p, order, i), #[trigger] order[i])
            && admissible(cache, roots, pins_before(Map::empty(), p, order, i), order[i], p[order[i]])
}

/// The search fails at the pins `p`, reached through `order`, on the
/// conflict's package: the conflict lists exactly the requirements on it
/// there, in order, and they cannot be met. Either the package is pinned to
/// a version that fails one of them (and it is the first such package in key
/// order), or it is not pinned and no published, usable version meets them
/// all.
pub open spec fn failed_at(
    cache: KeyedMap<Packument>,
    roots: RootReqs,
    raws: RawReqs,
    p: Map<Seq<char>, SemVer>,
    order: Seq<Seq<char>>,
    c: Conflict,
) -> bool {
    &&& reached(cache, roots, p, order)
    &&& conflict_texts(c) == reqs_on(cache, raws, p, order, c.package@)
    &&& if p.contains_key(c.package@) {
        &&& !meets_texts(conflict_texts(c), p[c.package@])
        &&& forall|m: Seq<char>|
            #[trigger] p.contains_key(m) && seq_lt(m, c.package@) ==> meets_texts(
                reqs_on(cache, raws, p, order, m),
                p[m],
            )
    } else {
        forall|v: SemVer|
            offered(cache, c.package@, v) && usable(meta_of(cache, c.package@, v)) ==> !#[trigger] meets_texts(
                conflict_texts(c),
                v,
            )
    }
}

/// The conflict is where the search really fails (see `failed_at`).
pub open spec fn conflict_real(
    cache: KeyedMap<Packument>,
    roots: RootReqs,
    raws: RawReqs,
    c: Conflict,
) -> bool {
    exists|p: Map<Seq<char>, SemVer>, order: Seq<Seq<char>>| #[trigger] failed_at(cache, roots, raws, p, order, c)
}

/// In an exactly recorded, sound constraint map, the requirements on a
/// package are its constraints, and meeting them is meeting its constraints.
proof fn lemma_meets_texts(
    cache: KeyedMap<Packument>,
    raws: RawReqs,
    cons: KeyedMap<Vec<Constraint>>,
    p: Map<Seq<char>, SemVer>,
    order: Seq<Seq<char>>,
    n: Seq<char>,
    cs: Vec<Constraint>,
)
    requires
        cons_sound(cache, raws, cons),
        cons_exact(cache, raws, cons, p, order),
        cons.lookup(n) == Some(cs),
    ensures
        reqs_on(cache, raws, p, order, n) == con_texts(cs@),
        forall|v: SemVer| meets_texts(reqs_on(cache, raws, p, order, n), v) <==> meets_all(cs@, v),
{
    assert(recorded(cons, n) == reqs_on(cache, raws, p, order, n));
    let t = con_texts(cs@);
    assert forall|i: int| 0 <= i < cs@.len() implies spec_parse_req(t[i].1)->0 == cs@[i].req@ by {
        assert(cons.lookup(n)->0@[i] == cs@[i]);
    }
    assert forall|v: SemVer| meets_texts(t, v) <==> meets_all(cs@, v) by {
        if meets_texts(t, v) {
            assert forall|j: int| 0 <= j < cs@.len() implies req_matches((#[trigger] cs@[j]).req@, v) by {
                assert(req_matches(spec_parse_req(t[j].1)->0, v));
            }
        }
        if meets_all(cs@, v) {
            assert forall|j: int| #![trigger t[j]] 0 <= j < t.len() implies req_matches(
                spec_parse_req(t[j].1)->0,
                v,
            ) by {
                assert(req_matches(cs@[j].req@, v));
            }
        }
    }
}

/// The requirement `who` makes on `n` through the first `d` entries of
/// `deps`.
spec fn deps_upto(deps: KeyedMap<String>, d: int, who: Seq<char>, n: Seq<char>) -> ReqTexts {
    if exists|q: int| 0 <= q < d && deps.keys()[q] == n {
        seq![(who, deps.lookup(n)->0@)]
    } else {
        Seq::empty()
    }
}

/// Pins that agree on the packages of `order` give the same requirements.
proof fn lemma_pinned_reqs_same(
    cache: KeyedMap<Packument>,
    p: Map<Seq<char>, SemVer>,
    p2: Map<Seq<char>, SemVer>,
    order: Seq<Seq<char>>,
    n: Seq<char>,
)
    requires
        forall|i: int| 0 <= i < order.len() ==> p[#[trigger] order[i]] == p2[order[i]],
    ensures
        pinned_reqs_on(cache, p, order, n) == pinned_reqs_on(cache, p2, order, n),
    decreases order.len(),
{
    if order.len() > 0 {
        let o = order.drop_last();
        assert forall|i: int| 0 <= i < o.len() implies p[#[trigger] o[i]] == p2[o[i]] by {
            assert(o[i] == order[i]);
        }
        lemma_pinned_reqs_same(cache, p, p2, o, n);
        assert(p[order[order.len() - 1]] == p2[order[order.len() - 1]]);
    }
}

/// Pinning `name@v` next adds `name@v`'s requirement after the others.
proof fn lemma_reqs_on_push(
    cache: KeyedMap<Packument>,
    raws: RawReqs,
    p: Map<Seq<char>, SemVer>,
    order: Seq<Seq<char>>,
    name: Seq<char>,
    v: SemVer,
    n: Seq<char>,
)
    requires
        !order.contains(name),
    ensures
        reqs_on(cache, raws, p.insert(name, v), order.push(name), n) == reqs_on(cache, raws, p, order, n)
            + decl_on(cache, name, v, n),
{
    let p2 = p.insert(name, v);
    let o2 = order.push(name);
    assert(o2.drop_last() =~= order);
    assert forall|i: int| 0 <= i < order.len() implies p2[#[trigger] order[i]] == p[order[i]] by {
        assert(order[i] != name);
    }
    lemma_pinned_reqs_same(cache, p2, p, order, n);
    assert(pinned_reqs_on(cache, p2, o2, n) == pinned_reqs_on(cache, p2, order, n) + decl_on(
        cache,
        name,
        v,
        n,
    ));
    assert(reqs_on(cache, raws, p2, o2, n) =~= reqs_on(cache, raws, p, order, n) + decl_on(cache, name, v, n));
}

/// Pinning the next package to an admissible version keeps the pins
/// reachable.
proof fn lemma_reached_step(
    cache: KeyedMap<Packument>,
    roots: RootReqs,
    p: Map<Seq<char>, SemVer>,
    order: Seq<Seq<char>>,
    name: Seq<char>,
    v: SemVer,
)
    requires
        reached(cache, roots, p, order),
        is_next(cache, roots, p, name),
        admissible(cache, roots, p, name, v),
    ensures
        reached(cache, roots, p.insert(name, v), order.push(name)),
        !order.contains(name),
{
    let p2 = p.insert(name, v);
    let o2 = order.push(name);
    assert(!order.to_set().contains(name));
    assert forall|k: Seq<char>| p2.dom().contains(k) <==> o2.to_set().contains(k) by {
        if o2.to_set().contains(k) {
            let w = choose|w: int| 0 <= w < o2.len() && o2[w] == k;
            if w < order.len() {
                assert(order[w] == k);
                assert(order.to_set().contains(k));
            }
        }
        if order.to_set().contains(k) {
            let w = choose|w: int| 0 <= w < order.len() && order[w] == k;
            assert(o2[w] == k);
        }
        if k == name {
            assert(o2[order.len() as int] == k);
        }
    }
    assert(p2.dom() =~= o2.to_set());
    assert forall|i: int| 0 <= i <= order.len() implies #[trigger] pins_before(Map::empty(), p2, o2, i)
        == if i < order.len() {
        pins_before(Map::empty(), p, order, i)
    } else {
        p
    } by {
        assert(o2.take(i) =~= order.take(i));
        let x = pins_before(Map::empty(), p2, o2, i);
        if i < order.len() {
            let y = pins_before(Map::empty(), p, order, i);
            assert forall|k: Seq<char>| x.dom().contains(k) implies x[k] == y[k] by {
                let w = choose|w: int| 0 <= w < i && order.take(i)[w] == k;
                assert(order[w] == k);
                assert(order.contains(k));
            }
            assert(x =~= y);
        } else {
            assert(order.take(i) =~= order);
            assert forall|k: Seq<char>| x.dom().contains(k) <==> p.dom().contains(k) by {
                assert(p.dom().contains(k) == order.to_set().contains(k));
            }
            assert forall|k: Seq<char>| x.dom().contains(k) implies x[k] == p[k] by {
                assert(k != name);
            }
            assert(x =~= p);
        }
    }
    assert forall|i: int| 0 <= i < o2.len() implies is_next(
        cache,
        roots,
        pins_before(Map::empty(), p2, o2, i),
        #[trigger] o2[i],
    ) && admissible(cache, roots, pins_before(Map::empty(), p2, o2, i), o2[i], p2[o2[i]]) by {
        assert(pins_before(Map::empty(), p2, o2, i) == if i < order.len() {
            pins_before(Map::empty(), p, order, i)
        } else {
            p
        });
        if i < order.len() {
            assert(o2[i] == order[i]);
            assert(order[i] != name);
        }
    }
}

/// A conflict built from the constraints on `name` in a consistent search
/// state is where the search fails there, when `name` is pinned to a version
/// that fails one of them (and every package before it in key order meets
/// its own), or is unpinned and no published, usable version meets them all.
proof fn lemma_conflict_real(
    cache: KeyedMap<Packument>,
    roots: RootReqs,
    raws: RawReqs,
    cons: KeyedMap<Vec<Constraint>>,
    a: KeyedMap<SemanticVersion>,
    order: Seq<Seq<char>>,
    name: Seq<char>,
    cs: Vec<Constraint>,
    c: Conflict,
)
    requires
        search_inv(cache, roots, cons, a),
        cons_sound(cache, raws, cons),
        cons_exact(cache, raws, cons, selection(a), order),
        reached(cache, roots, selection(a), order),
        cons.lookup(name) == Some(cs),
        c.package@ == name,
        c.requirements@.len() == cs@.len(),
        forall|i: int|
            0 <= i < cs@.len() ==> (#[trigger] c.requirements@[i]).requester@ == cs@[i].requester@
                && c.requirements@[i].range@ == cs@[i].raw@,
        selection(a).contains_key(name) ==> !meets_all(cs@, selection(a)[name]) && forall|m: Seq<char>|
            #[trigger] selection(a).contains_key(m) && seq_lt(m, name) ==> cons.lookup(m) is Some
                && meets_all(cons.lookup(m)->0@, selection(a)[m]),
        !selection(a).contains_key(name) ==> forall|v: SemVer|
            offered(cache, name, v) && usable(meta_of(cache, name, v)) ==> !#[trigger] meets_all(cs@, v),
    ensures
        conflict_real(cache, roots, raws, c),
{
    let p = selection(a);
    lemma_meets_texts(cache, raws, cons, p, order, name, cs);
    assert(conflict_texts(c) =~= con_texts(cs@));
    if p.contains_key(name) {
        assert forall|m: Seq<char>|
            #[trigger] p.contains_key(m) && seq_lt(m, name) implies meets_texts(
            reqs_on(cache, raws, p, order, m),
            p[m],
        ) by {
            lemma_meets_texts(cache, raws, cons, p, order, m, cons.lookup(m)->0);
        }
    } else {
        assert forall|v: SemVer|
            offered(cache, name, v) && usable(meta_of(cache, name, v)) implies !#[trigger] meets_texts(
            conflict_texts(c),
            v,
        ) by {
            assert(!meets_all(cs@, v));
        }
    }
    assert(failed_at(cache, roots, raws, p, order, c));
}

/// Adding a requirement that was really asked for keeps the constraints
/// sound.
pub(crate) proof fn lemma_cons_sound_add(
    cache: KeyedMap<Packument>,
    raws: RawReqs,
    before: KeyedMap<Vec<Constraint>>,
    after: KeyedMap<Vec<Constraint>>,
    name: Seq<char>,
    c: Constraint,
)
    requires
        cons_sound(cache, raws, before),
        requirement_sound(cache, raws, name, c.requester@, c.raw@),
        spec_parse_req(c.raw@) == Some(c.req@),
        after.lookup(name) is Some,
        after.lookup(name)->0@ == (match before.lookup(name) {
            Some(v) => v@,
            None => Seq::empty(),
        }).push(c),
        forall|n: Seq<char>| n != name ==> #[trigger] after.lookup(n) == before.lookup(n),
    ensures
        cons_sound(cache, raws, after),
{
    assert forall|n: Seq<char>, j: int|
        after.lookup(n) is Some && 0 <= j < after.lookup(n)->0@.len() implies requirement_sound(
        cache,
        raws,
        n,
        (#[trigger] after.lookup(n)->0@[j]).requester@,
        after.lookup(n)->0@[j].raw@,
    ) && spec_parse_req(after.lookup(n)->0@[j].raw@) == Some(after.lookup(n)->0@[j].req@) by {
        if n == name {
            if before.lookup(name) is Some && j < before.lookup(name)->0@.len() {
                assert(after.lookup(n)->0@[j] == before.lookup(name)->0@[j]);
            }
        } else {
            assert(after.lookup(n) == before.lookup(n));
        }
    }
}

/// A package with constraints has at least one.
proof fn lemma_lookup_nonempty(cons: KeyedMap<Vec<Constraint>>, n: Seq<char>)
    requires
        forall|i: int| 0 <= i < cons.size() ==> (#[trigger] cons.values()[i])@.len() > 0,
        cons.lookup(n) is Some,
    ensures
        cons.lookup(n)->0@.len() > 0,
{
    lemma_first_index(cons.keys(), n);
}

/// The conflict built from the constraints on a package is sound.
proof fn lemma_conflict_sound(
    cache: KeyedMap<Packument>,
    raws: RawReqs,
    cons: KeyedMap<Vec<Constraint>>,
    name: Seq<char>,
    cs: Vec<Constraint>,
    c: Conflict,
)
    requires
        cons_sound(cache, raws, cons),
        cons.lookup(name) == Some(cs),
        cs@.len() > 0,
        c.package@ == name,
        c.requirements@.len() == cs@.len(),
        forall|i: int|
            0 <= i < cs@.len() ==> (#[trigger] c.requirements@[i]).requester@ == cs@[i].requester@
                && c.requirements@[i].range@ == cs@[i].raw@,
    ensures
        conflict_sound(cache, raws, c),
{
    assert forall|i: int| 0 <= i < c.requirements@.len() implies requirement_sound(
        cache,
        raws,
        c.package@,
        (#[trigger] c.requirements@[i]).requester@,
        c.requirements@[i].range@,
    ) by {
        assert(cons.lookup(name)->0@[i] == cs@[i]);
    }
}

pub(crate) proof fn lemma_meta_dep_names(ms: Seq<VersionMeta>, j: int, d: Seq<char>)
    requires
        0 <= j < ms.len(),
        ms[j].dependencies.keys().contains(d),
    ensures
        meta_dep_names(ms).contains(d),
    decreases ms.len(),
{
    let k = choose|k: int| 0 <= k < ms[j].dependencies.keys().len() && ms[j].dependencies.keys()[k] == d;
    if j == ms.len() - 1 {
        let pre = meta_dep_names(ms.drop_last());
        assert(meta_dep_names(ms)[pre.len() + k] == d);
    } else {
        lemma_meta_dep_names(ms.drop_last(), j, d);
        let w = choose|w: int| 0 <= w < meta_dep_names(ms.drop_last()).len() && meta_dep_names(ms.drop_last())[w] == d;
        assert(meta_dep_names(ms)[w] == d);
    }
}

proof fn lemma_cache_dep_names(ps: Seq<Packument>, i: int, j: int, d: Seq<char>)
    requires
        0 <= i < ps.len(),
        0 <= j < ps[i].versions.size(),
        ps[i].versions.values()[j].dependencies.keys().contains(d),
    ensures
        cache_dep_names(ps).contains(d),
    decreases ps.len(),
{
    if i == ps.len() - 1 {
        lemma_meta_dep_names(ps[i].versions.values(), j, d);
        let pre = cache_dep_names(ps.drop_last());
        let w = choose|w: int| 0 <= w < meta_dep_names(ps[i].versions.values()).len() && meta_dep_names(ps[i].versions.values())[w] == d;
        assert(cache_dep_names(ps)[pre.len() + w] == d);
    } else {
        lemma_cache_dep_names(ps.drop_last(), i, j, d);
        let w = choose|w: int| 0 <= w < cache_dep_names(ps.drop_last()).len() && cache_dep_names(ps.drop_last())[w] == d;
        assert(cache_dep_names(ps)[w] == d);
    }
}

proof fn lemma_version_index_from(keys: Seq<Seq<char>>, v: SemVer, i: int)
    requires
        0 <= i <= keys.len(),
    ensures
        ({
            let r = version_index_from(keys, v, i);
            &&& r == -1 <==> (forall|j: int| i <= j < keys.len() ==> semver_parse(keys[j]) != Some(v))
            &&& r != -1 ==> i <= r < keys.len() && semver_parse(keys[r]) == Some(v) && (forall|j: int|
                i <= j < r ==> semver_parse(keys[j]) != Some(v))
        }),
    decreases keys.len() - i,
{
    if i < keys.len() && semver_parse(keys[i]) != Some(v) {
        lemma_version_index_from(keys, v, i + 1);
    }
}

/// What `version_index` returns: -1 when no key parses to `v`, else the first
/// key that does.
pub proof fn lemma_version_index(p: Packument, v: SemVer)
    ensures
        version_index(p, v) == -1 <==> (forall|j: int|
            0 <= j < p.versions.size() ==> semver_parse(p.versions.keys()[j]) != Some(v)),
        version_index(p, v) != -1 ==> 0 <= version_index(p, v) < p.versions.size()
            && semver_parse(p.versions.keys()[version_index(p, v)]) == Some(v) && (forall|j: int|
            0 <= j < version_index(p, v) ==> semver_parse(p.versions.keys()[j]) != Some(v)),
{
    lemma_version_index_from(p.versions.keys(), v, 0);
}

/// A dependency declared by a published version lies in the universe.
proof fn lemma_declared_in_universe(
    cache: KeyedMap<Packument>,
    roots: RootReqs,
    m: Seq<char>,
    v: SemVer,
    d: Seq<char>,
    r: Option<Seq<char>>,
)
    requires
        offered(cache, m, v),
        declares(meta_of(cache, m, v), d, r),
    ensures
        universe(cache, roots).contains(d),
{
    let i = first_index(cache.keys(), m);
    lemma_first_index(cache.keys(), m);
    let p = cache.values()[i];
    lemma_version_index(p, v);
    let j = version_index(p, v);
    let meta = p.versions.values()[j];
    let k = choose|k: int|
        0 <= k < meta.dependencies.size() && #[trigger] meta.dependencies.keys()[k] == d
            && spec_parse_req(meta.dependencies.values()[k]@) == Some(r);
    assert(meta.dependencies.keys().contains(d));
    lemma_cache_dep_names(cache.values(), i, j, d);
    let names = roots.map_values(|x: (Seq<char>, Option<Seq<char>>)| x.0);
    let w = choose|w: int| 0 <= w < cache_dep_names(cache.values()).len() && cache_dep_names(cache.values())[w] == d;
    assert((names + cache_dep_names(cache.values()))[names.len() + w] == d);
}

/// A package the manifest names lies in the universe.
proof fn lemma_root_in_universe(cache: KeyedMap<Packument>, roots: RootReqs, n: Seq<char>, r: Option<Seq<char>>)
    requires
        root_requires(roots, n, r),
    ensures
        universe(cache, roots).contains(n),
{
    let i = choose|i: int| 0 <= i < roots.len() && #[trigger] roots[i] == (n, r);
    let names = roots.map_values(|x: (Seq<char>, Option<Seq<char>>)| x.0);
    assert((names + cache_dep_names(cache.values()))[i] == n);
}

/// Strictly sorted keys hold no duplicates.
proof fn lemma_sorted_no_duplicates(keys: Seq<Seq<char>>)
    requires
        strictly_sorted(keys),
    ensures
        keys.no_duplicates(),
{
    assert forall|i: int, j: int| 0 <= i < keys.len() && 0 <= j < keys.len() && i != j implies keys[i] != keys[j] by {
        if i < j {
            assert(crate::text::seq_lt(keys[i], keys[j]));
            crate::text::lemma_seq_lt_irreflexive(keys[i]);
        } else {
            assert(crate::text::seq_lt(keys[j], keys[i]));
            crate::text::lemma_seq_lt_irreflexive(keys[j]);
        }
    }
}

/// Distinct positions of a strictly sorted sequence hold distinct keys.
pub proof fn lemma_keys_distinct(keys: Seq<Seq<char>>, i: int, j: int)
    requires
        strictly_sorted(keys),
        0 <= i < keys.len(),
        0 <= j < keys.len(),
        i != j,
    ensures
        keys[i] != keys[j],
{
    lemma_sorted_no_duplicates(keys);
}

/// Every constrained (hence every pinned) package lies in the universe, so
/// an assignment never pins more packages than the universe holds.
proof fn lemma_pins_bounded(
    cache: KeyedMap<Packument>,
    roots: RootReqs,
    cons: KeyedMap<Vec<Constraint>>,
    a: KeyedMap<SemanticVersion>,
    extra: Seq<char>,
)
    requires
        search_inv(cache, roots, cons, a),
        cons.keys().contains(extra),
        !a.keys().contains(extra),
    ensures
        a.size() + 1 <= universe(cache, roots).len(),
        universe(cache, roots).finite(),
{
    let u = universe(cache, roots);
    assert(u.finite()) by {
        vstd::seq_lib::seq_to_set_is_finite(
            roots.map_values(|x: (Seq<char>, Option<Seq<char>>)| x.0) + cache_dep_names(cache.values()),
        );
    }
    assert forall|k: Seq<char>| cons.keys().contains(k) implies u.contains(k) by {
        let i = choose|i: int| 0 <= i < cons.keys().len() && cons.keys()[i] == k;
        assert(cons.values()[i]@.len() > 0);
        let c = cons.values()[i]@[0];
        assert(has_con(cons, k, c.req@));
        if root_requires(roots, k, c.req@) {
            lemma_root_in_universe(cache, roots, k, c.req@);
        } else {
            let m = choose|m: Seq<char>|
                #[trigger] selection(a).contains_key(m) && declares(
                    meta_of(cache, m, selection(a)[m]),
                    k,
                    c.req@,
                );
            assert(a.keys().contains(m));
            lemma_declared_in_universe(cache, roots, m, selection(a)[m], k, c.req@);
        }
    }
    let pins = a.keys().push(extra);
    lemma_sorted_no_duplicates(a.keys());
    assert(pins.no_duplicates());
    pins.unique_seq_to_set();
    assert forall|x: Seq<char>| pins.to_set().contains(x) implies u.contains(x) by {
        assert(pins.contains(x));
        let w = choose|w: int| 0 <= w < pins.len() && pins[w] == x;
        if w < a.keys().len() {
            assert(a.keys().contains(x));
        }
    }
    assert(pins.to_set().subset_of(u));
    vstd::set_lib::lemma_len_subset(pins.to_set(), u);
}


/// `cs` holds a constraint with requirement `r`.
pub open spec fn con_in(cs: Seq<Constraint>, r: Option<Seq<char>>) -> bool {
    exists|j: int| 0 <= j < cs.len() && (#[trigger] cs[j]).req@ == r
}

/// `v` meets every constraint in `cs`.
pub open spec fn meets_all(cs: Seq<Constraint>, v: SemVer) -> bool {
    forall|j: int| 0 <= j < cs.len() ==> req_matches((#[trigger] cs[j]).req@, v)
}

/// In a well-formed constraint map, `has_con` is a lookup.
proof fn lemma_has_con_lookup(cons: KeyedMap<Vec<Constraint>>, n: Seq<char>, r: Option<Seq<char>>)
    requires
        cons.wf(),
    ensures
        has_con(cons, n, r) == (cons.lookup(n) matches Some(cs) && con_in(cs@, r)),
{
    lemma_first_index(cons.keys(), n);
    if has_con(cons, n, r) {
        let (i, j) = choose|i: int, j: int|
            0 <= i < cons.size() && cons.keys()[i] == n && 0 <= j < cons.values()[i]@.len() && (
            #[trigger] cons.values()[i]@[j]).req@ == r;
        crate::keyed::lemma_sorted_first_index(cons.keys(), i);
        assert(cons.values()[i]@[j].req@ == r);
    }
    if cons.lookup(n) is Some {
        let i = first_index(cons.keys(), n);
        let cs = cons.values()[i];
        if con_in(cs@, r) {
            let j = choose|j: int| 0 <= j < cs@.len() && (#[trigger] cs@[j]).req@ == r;
            assert(cons.values()[i]@[j].req@ == r);
        }
    }
}

/// The metadata of `name@version`, if the cache offers that version.
pub(crate) fn version_meta<'a>(cache: &'a KeyedMap<Packument>, name: &str, version: &SemanticVersion) -> (r:
    Option<&'a VersionMeta>)
    ensures
        match r {
            Some(m) => offered(*cache, name@, version@) && *m == meta_of(*cache, name@, version@),
            None => !offered(*cache, name@, version@),
        },
{
    let p = match cache.get(name) {
        Some(p) => p,
        None => return None,
    };
    let n = p.versions.len();
    let mut i: usize = 0;
    while i < n
        invariant
            n == p.versions.size(),
            cache.lookup(name@) == Some(*p),
            i <= n,
            version_index(*p, version@) == version_index_from(p.versions.keys(), version@, i as int),
        decreases n - i,
    {
        match SemanticVersion::parse(p.versions.key_at(i).as_str()) {
            Ok(v) => {
                if v.same(version) {
                    assert(semver_parse(p.versions.keys()[i as int]) == Some(version@));
                    assert(version_index_from(p.versions.keys(), version@, i as int) == i);
                    return Some(p.versions.value_at(i));
                }
            },
            Err(_) => {},
        }
        i = i + 1;
    }
    None
}

/// Whether `v` meets every constraint in `cs`.
fn meets_every(cs: &Vec<Constraint>, v: &SemanticVersion) -> (r: bool)
    ensures
        r == meets_all(cs@, v@),
{
    let n = cs.len();
    let mut j: usize = 0;
    while j < n
        invariant
            n == cs@.len(),
            j <= n,
            forall|q: int| 0 <= q < j ==> req_matches((#[trigger] cs@[q]).req@, v@),
        decreases n - j,
    {
        if !cs[j].req.matches(v) {
            return false;
        }
        j = j + 1;
    }
    true
}

/// No element of `s` is ordered strictly below a later one.
pub open spec fn descending(s: Seq<SemanticVersion>) -> bool {
    forall|i: int, j: int| #![trigger s[i], s[j]] 0 <= i < j < s.len() ==> !semver_lt(s[i]@, s[j]@)
}

/// No version occurs twice in `s`.
pub open spec fn distinct_versions(s: Seq<SemanticVersion>) -> bool {
    forall|i: int, j: int| #![trigger s[i], s[j]] 0 <= i < j < s.len() ==> s[i]@ != s[j]@
}

/// Some element of `s` is the version `x`.
pub open spec fn holds_version(s: Seq<SemanticVersion>, x: SemVer) -> bool {
    exists|i: int| 0 <= i < s.len() && (#[trigger] s[i])@ == x
}

/// Inserts `v` before the first element ordered strictly below it.
fn insert_descending(out: &mut Vec<SemanticVersion>, v: SemanticVersion)
    requires
        descending(old(out)@),
        distinct_versions(old(out)@),
        !holds_version(old(out)@, v@),
    ensures
        descending(final(out)@),
        distinct_versions(final(out)@),
        final(out)@.len() == old(out)@.len() + 1,
        forall|x: SemVer| #[trigger]
            holds_version(final(out)@, x) <==> (x == v@ || holds_version(old(out)@, x)),
{
    let n = out.len();
    let mut p: usize = 0;
    let mut below = false;
    while p < n && !below
        invariant
            n == out@.len(),
            p <= n,
            forall|q: int| 0 <= q < p ==> !semver_lt((#[trigger] out@[q])@, v@),
            below ==> p < n && semver_lt(out@[p as int]@, v@) && !semver_lt(v@, out@[p as int]@)
                && forall|c: SemVer| semver_lt(v@, c) ==> semver_lt(out@[p as int]@, c),
        decreases n - p, (if below { 0int } else { 1int }),
    {
        if out[p].lt(&v) {
            below = true;
        } else {
            p = p + 1;
        }
    }
    let ghost o = out@;
    let ghost vv = v@;
    assert forall|j: int| p <= j < o.len() implies !semver_lt(vv, #[trigger] o[j]@) by {
        if j > p {
            assert(!semver_lt(o[p as int]@, o[j]@));
        }
    }
    out.insert(p, v);
    assert(out@ == o.insert(p as int, out@[p as int]));
    assert forall|i: int, j: int| 0 <= i < j < out@.len() implies !semver_lt(out@[i]@, out@[j]@)
        && out@[i]@ != out@[j]@ by {
        if j < p {
            assert(out@[i] == o[i] && out@[j] == o[j]);
        } else if j == p {
            assert(out@[i] == o[i]);
            assert(!holds_version(o, vv));
        } else if i == p {
            assert(out@[j] == o[j - 1]);
            assert(!holds_version(o, vv));
        } else if i < p {
            assert(out@[i] == o[i] && out@[j] == o[j - 1]);
        } else {
            assert(out@[i] == o[i - 1] && out@[j] == o[j - 1]);
        }
    }
    assert forall|x: SemVer| #[trigger] holds_version(out@, x) <==> (x == vv || holds_version(o, x)) by {
        if exists|i: int| 0 <= i < out@.len() && (#[trigger] out@[i])@ == x {
            let i = choose|i: int| 0 <= i < out@.len() && (#[trigger] out@[i])@ == x;
            if i < p {
                assert(o[i]@ == x);
            } else if i > p {
                assert(o[i - 1]@ == x);
            }
        }
        if exists|i: int| 0 <= i < o.len() && (#[trigger] o[i])@ == x {
            let i = choose|i: int| 0 <= i < o.len() && (#[trigger] o[i])@ == x;
            if i < p {
                assert(out@[i]@ == x);
            } else {
                assert(out@[i + 1]@ == x);
            }
        }
        if x == vv {
            assert(out@[p as int]@ == x);
        }
    }
}

/// Versions of `name` that satisfy every constraint, highest first, each
/// once.
fn candidates(cache: &KeyedMap<Packument>, name: &str, cs: &Vec<Constraint>) -> (r: Vec<SemanticVersion>)
    ensures
        descending(r@),
        distinct_versions(r@),
        forall|i: int|
            0 <= i < r@.len() ==> offered(*cache, name@, (#[trigger] r@[i])@) && meets_all(cs@, r@[i]@),
        forall|v: SemVer| offered(*cache, name@, v) && meets_all(cs@, v) ==> #[trigger] holds_version(r@, v),
{
    let mut out: Vec<SemanticVersion> = Vec::new();
    let p = match cache.get(name) {
        Some(p) => p,
        None => return out,
    };
    proof {
        use_type_invariant(&p.versions);
    }
    let n = p.versions.len();
    let mut i: usize = 0;
    while i < n
        invariant
            n == p.versions.size(),
            cache.lookup(name@) == Some(*p),
            i <= n,
            descending(out@),
            distinct_versions(out@),
            strictly_sorted(p.versions.keys()),
            forall|x: SemVer| #[trigger]
                holds_version(out@, x) ==> exists|k: int|
                    0 <= k < i && version_text(x) == #[trigger] p.versions.keys()[k],
            forall|x: SemVer| #[trigger]
                holds_version(out@, x) ==> offered(*cache, name@, x) && meets_all(cs@, x),
            forall|k: int|
                0 <= k < i && semver_parse(#[trigger] p.versions.keys()[k]) is Some && meets_all(
                    cs@,
                    semver_parse(p.versions.keys()[k])->0,
                ) ==> holds_version(out@, semver_parse(p.versions.keys()[k])->0),
        decreases n - i,
    {
        match SemanticVersion::parse(p.versions.key_at(i).as_str()) {
            Ok(v) => {
                if meets_every(cs, &v) {
                    proof {
                        lemma_version_index(*p, v@);
                    }
                    let ghost before = out@;
                    proof {
                        if holds_version(before, v@) {
                            let k = choose|k: int|
                                0 <= k < i && version_text(v@) == #[trigger] p.versions.keys()[k];
                            assert(crate::text::seq_lt(p.versions.keys()[k], p.versions.keys()[i as int]));
                            crate::text::lemma_seq_lt_irreflexive(p.versions.keys()[k]);
                        }
                    }
                    let ghost vv = v@;
                    insert_descending(&mut out, v);
                    assert forall|x: SemVer| #[trigger] holds_version(out@, x) implies exists|k: int|
                        0 <= k < i + 1 && version_text(x) == #[trigger] p.versions.keys()[k] by {
                        if x == vv {
                            assert(version_text(x) == p.versions.keys()[i as int]);
                        } else {
                            assert(holds_version(before, x));
                            let k = choose|k: int|
                                0 <= k < i && version_text(x) == #[trigger] p.versions.keys()[k];
                            assert(0 <= k < i + 1);
                        }
                    }
                    assert forall|k: int|
                        0 <= k < i + 1 && semver_parse(#[trigger] p.versions.keys()[k]) is Some
                            && meets_all(cs@, semver_parse(p.versions.keys()[k])->0) implies holds_version(
                        out@,
                        semver_parse(p.versions.keys()[k])->0,
                    ) by {
                        if k < i {
                            assert(holds_version(before, semver_parse(p.versions.keys()[k])->0));
                        }
                    }
                }
            },
            Err(_) => {},
        }
        i = i + 1;
    }
    assert forall|i: int| 0 <= i < out@.len() implies offered(*cache, name@, (#[trigger] out@[i])@)
        && meets_all(cs@, out@[i]@) by {
        assert(holds_version(out@, out@[i]@));
    }
    assert forall|v: SemVer| offered(*cache, name@, v) && meets_all(cs@, v) implies #[trigger] holds_version(out@, v) by {
        lemma_version_index(*p, v);
        let k = version_index(*p, v);
        assert(semver_parse(p.versions.keys()[k]) == Some(v));
    }
    out
}

/// Describes why `name` cannot be satisfied under `cs`.
fn conflict(name: &String, cs: &Vec<Constraint>) -> (r: Conflict)
    ensures
        r.package@ == name@,
        r.requirements@.len() == cs@.len(),
        forall|i: int|
            0 <= i < cs@.len() ==> (#[trigger] r.requirements@[i]).requester@ == cs@[i].requester@
                && r.requirements@[i].range@ == cs@[i].raw@,
{
    let mut requirements: Vec<ConflictingRequirement> = Vec::new();
    let n = cs.len();
    let mut i: usize = 0;
    while i < n
        invariant
            n == cs@.len(),
            i <= n,
            requirements@.len() == i,
            forall|q: int|
                0 <= q < i ==> (#[trigger] requirements@[q]).requester@ == cs@[q].requester@
                    && requirements@[q].range@ == cs@[q].raw@,
        decreases n - i,
    {
        requirements.push(
            ConflictingRequirement { requester: cs[i].requester.clone(), range: cs[i].raw.clone() },
        );
        i = i + 1;
    }
    Conflict { package: name.clone(), requirements }
}

/// Adds `c` to the requirements on `name`.
pub(crate) fn add_constraint(cons: &mut KeyedMap<Vec<Constraint>>, name: String, c: Constraint)
    requires
        old(cons).wf(),
        forall|i: int| 0 <= i < old(cons).size() ==> (#[trigger] old(cons).values()[i])@.len() > 0,
    ensures
        final(cons).wf(),
        forall|i: int| 0 <= i < final(cons).size() ==> (#[trigger] final(cons).values()[i])@.len() > 0,
        forall|n: Seq<char>, r: Option<Seq<char>>|
            #[trigger] has_con(*final(cons), n, r) <==> (has_con(*old(cons), n, r) || (n == name@ && r
                == c.req@)),
        final(cons).keys().to_set() == old(cons).keys().to_set().insert(name@),
        final(cons).lookup(name@) is Some,
        final(cons).lookup(name@)->0@ == (match old(cons).lookup(name@) {
            Some(v) => v@,
            None => Seq::empty(),
        }).push(c),
        forall|n: Seq<char>| n != name@ ==> #[trigger] final(cons).lookup(n) == old(cons).lookup(n),
{
    let ghost ok = cons.keys();
    let ghost oc = c;
    let ghost req = c.req@;
    let ghost nm = name@;
    match cons.index_of(name.as_str()) {
        Some(i) => {
            let mut v: Vec<Constraint> = cons.value_at(i).clone();
            assert(v@ =~= old(cons).values()[i as int]@);
            v.push(c);
            cons.set_value(i, v);
            proof {
                lemma_first_index(ok, nm);
                assert forall|n: Seq<char>, r: Option<Seq<char>>|
                    #[trigger] has_con(*cons, n, r) <==> (has_con(*old(cons), n, r) || (n == nm && r
                        == req)) by {
                    lemma_has_con_lookup(*cons, n, r);
                    lemma_has_con_lookup(*old(cons), n, r);
                    lemma_first_index(ok, n);
                    if n == nm {
                        let cs = cons.values()[i as int]@;
                        assert(cs[cs.len() - 1].req@ == req);
                        if con_in(old(cons).values()[i as int]@, r) {
                            let j = choose|j: int|
                                0 <= j < old(cons).values()[i as int]@.len() && (#[trigger] old(
                                    cons,
                                ).values()[i as int]@[j]).req@ == r;
                            assert(cs[j] == old(cons).values()[i as int]@[j]);
                        }
                        if con_in(cs, r) {
                            let j = choose|j: int| 0 <= j < cs.len() && (#[trigger] cs[j]).req@ == r;
                            if j < cs.len() - 1 {
                                assert(cs[j] == old(cons).values()[i as int]@[j]);
                            }
                        }
                    }
                }
                assert(cons.keys().to_set() =~= ok.to_set().insert(nm));
                assert forall|n: Seq<char>| n != nm implies #[trigger] cons.lookup(n) == old(cons).lookup(n) by {
                    lemma_first_index(ok, n);
                }
            }
        },
        None => {
            let mut v: Vec<Constraint> = Vec::new();
            v.push(c);
            cons.insert(name, v);
            proof {
                assert forall|n: Seq<char>, r: Option<Seq<char>>|
                    #[trigger] has_con(*cons, n, r) <==> (has_con(*old(cons), n, r) || (n == nm && r
                        == req)) by {
                    lemma_has_con_lookup(*cons, n, r);
                    lemma_has_con_lookup(*old(cons), n, r);
                    assert(cons.lookup(n) == if n == nm {
                        Some(v)
                    } else {
                        old(cons).lookup(n)
                    });
                    if n == nm {
                        assert(v@[0].req@ == req);
                    }
                }
                assert(v@ =~= Seq::<Constraint>::empty().push(oc));
                assert forall|i: int| 0 <= i < cons.size() implies (#[trigger] cons.values()[i])@.len() > 0 by {
                    let k = cons.keys()[i];
                    crate::keyed::lemma_sorted_first_index(cons.keys(), i);
                    assert(cons.lookup(k) == if k == nm {
                        Some(v)
                    } else {
                        old(cons).lookup(k)
                    });
                    if k != nm {
                        lemma_first_index(ok, k);
                        assert(ok.to_set().contains(k)) by {
                            assert(cons.keys().to_set().contains(k));
                        }
                        assert(ok.contains(k));
                    }
                }
            }
        },
    }
}


/// A requirement in a consistent search state binds every solution that
/// agrees with the pins.
proof fn lemma_constraint_binds(
    cache: KeyedMap<Packument>,
    roots: RootReqs,
    cons: KeyedMap<Vec<Constraint>>,
    a: KeyedMap<SemanticVersion>,
    n: Seq<char>,
    r: Option<Seq<char>>,
    s: Map<Seq<char>, SemVer>,
)
    requires
        search_inv(cache, roots, cons, a),
        has_con(cons, n, r),
        closed_solution(cache, roots, s),
        extends(s, selection(a)),
    ensures
        s.contains_key(n),
        req_matches(r, s[n]),
{
    if root_requires(roots, n, r) {
        let k = choose|k: int| 0 <= k < roots.len() && #[trigger] roots[k] == (n, r);
        assert(s.contains_key(roots[k].0));
    } else {
        assert(pinned_declares(cache, a, n, r));
        let m = choose|m: Seq<char>|
            #[trigger] selection(a).contains_key(m) && declares(meta_of(cache, m, selection(a)[m]), n, r);
        assert(s.contains_key(m) && s[m] == selection(a)[m]);
        assert(declares(meta_of(cache, m, s[m]), n, r));
    }
}

/// In a well-formed assignment the pin of the `q`-th key is the `q`-th value.
proof fn lemma_selection_at(a: KeyedMap<SemanticVersion>, q: int)
    requires
        a.wf(),
        0 <= q < a.size(),
    ensures
        selection(a).contains_key(a.keys()[q]),
        selection(a)[a.keys()[q]] == a.values()[q]@,
{
    crate::keyed::lemma_sorted_first_index(a.keys(), q);
}

/// Once the pins before position `i` of the assignment are checked, every
/// pinned package before the `i`-th in key order meets its constraints.
proof fn lemma_earlier_pins_meet(
    cache: KeyedMap<Packument>,
    roots: RootReqs,
    cons: KeyedMap<Vec<Constraint>>,
    a: KeyedMap<SemanticVersion>,
    i: int,
)
    requires
        search_inv(cache, roots, cons, a),
        0 <= i < a.size(),
        forall|q: int, r: Option<Seq<char>>|
            0 <= q < i && #[trigger] has_con(cons, a.keys()[q], r) ==> req_matches(r, a.values()[q]@),
    ensures
        forall|m: Seq<char>|
            #[trigger] selection(a).contains_key(m) && seq_lt(m, a.keys()[i]) ==> cons.lookup(m) is Some
                && meets_all(cons.lookup(m)->0@, selection(a)[m]),
{
    assert forall|m: Seq<char>|
        #[trigger] selection(a).contains_key(m) && seq_lt(m, a.keys()[i]) implies cons.lookup(m) is Some
            && meets_all(cons.lookup(m)->0@, selection(a)[m]) by {
        let w = choose|w: int| 0 <= w < a.keys().len() && a.keys()[w] == m;
        if w == i {
            crate::text::lemma_seq_lt_irreflexive(m);
        } else if w > i {
            assert(seq_lt(a.keys()[i], a.keys()[w]));
            crate::text::lemma_seq_lt_asymmetric(m, a.keys()[i]);
        }
        lemma_selection_at(a, w);
        assert(a.keys().contains(m));
        lemma_first_index(cons.keys(), m);
        let cs = cons.lookup(m)->0@;
        assert forall|j: int| 0 <= j < cs.len() implies req_matches((#[trigger] cs[j]).req@, selection(a)[m]) by {
            lemma_has_con_lookup(cons, m, cs[j].req@);
            assert(has_con(cons, a.keys()[w], cs[j].req@));
        }
    }
}

/// A constrained package is a key of the constraint map.
proof fn lemma_has_con_key(cons: KeyedMap<Vec<Constraint>>, n: Seq<char>, r: Option<Seq<char>>)
    requires
        has_con(cons, n, r),
    ensures
        cons.keys().contains(n),
{
    let (i, j) = choose|i: int, j: int|
        0 <= i < cons.size() && cons.keys()[i] == n && 0 <= j < cons.values()[i]@.len() && (
        #[trigger] cons.values()[i]@[j]).req@ == r;
    assert(cons.keys()[i] == n);
}

/// A copy made with `duplicate` holds equal constraint lists.
proof fn lemma_cloned_constraints(a: Vec<Constraint>, b: Vec<Constraint>)
    requires
        cloned(a, b),
    ensures
        b@ == a@,
{
    if a != b {
        assert(b@.len() == a@.len());
        assert forall|i: int| 0 <= i < a@.len() implies b@[i] == a@[i] by {
            assert(cloned(a[i], b[i]));
        }
        assert(b@ =~= a@);
    }
}

/// Pinning a fresh package extends the selection by exactly that pin.
proof fn lemma_pin_fresh(
    a: KeyedMap<SemanticVersion>,
    copy: KeyedMap<SemanticVersion>,
    b: KeyedMap<SemanticVersion>,
    name: Seq<char>,
    v: SemanticVersion,
)
    requires
        a.wf(),
        copy.keys() == a.keys(),
        copy.size() == a.size(),
        forall|i: int| 0 <= i < a.size() ==> cloned(a.values()[i], #[trigger] copy.values()[i]),
        forall|k: Seq<char>| #[trigger]
            b.lookup(k) == if k == name {
                Some(v)
            } else {
                copy.lookup(k)
            },
        b.keys().to_set() == copy.keys().to_set().insert(name),
        !a.keys().contains(name),
        b.wf(),
    ensures
        selection(b) == selection(a).insert(name, v@),
        b.size() == a.size() + 1,
{
    assert(copy.values() =~= a.values()) by {
        assert forall|i: int| 0 <= i < a.size() implies copy.values()[i] == a.values()[i] by {
            assert(cloned(a.values()[i], copy.values()[i]));
        }
    }
    assert forall|k: Seq<char>| #[trigger] b.keys().contains(k) <==> (a.keys().contains(k) || k == name) by {
        assert(b.keys().to_set().contains(k) == b.keys().contains(k));
        assert(a.keys().to_set().contains(k) == a.keys().contains(k));
    }
    assert forall|k: Seq<char>| b.keys().contains(k) implies #[trigger] selection(b)[k] == selection(a).insert(name, v@)[k] by {
        assert(b.lookup(k) == if k == name {
            Some(v)
        } else {
            copy.lookup(k)
        });
        assert(copy.lookup(k) == a.lookup(k));
    }
    assert(selection(b) =~= selection(a).insert(name, v@));
    lemma_sorted_no_duplicates(a.keys());
    lemma_sorted_no_duplicates(b.keys());
    a.keys().unique_seq_to_set();
    b.keys().unique_seq_to_set();
    assert(!a.keys().to_set().contains(name));
}

/// When every constrained package is pinned and every pin meets its
/// requirements, the pins are a demanded, closed solution.
proof fn lemma_finished(
    cache: KeyedMap<Packument>,
    roots: RootReqs,
    cons: KeyedMap<Vec<Constraint>>,
    a: KeyedMap<SemanticVersion>,
)
    requires
        search_inv(cache, roots, cons, a),
        forall|q: int, r: Option<Seq<char>>|
            0 <= q < a.size() && #[trigger] has_con(cons, a.keys()[q], r) ==> req_matches(
                r,
                a.values()[q]@,
            ),
        forall|q: int| 0 <= q < cons.size() ==> a.keys().contains(#[trigger] cons.keys()[q]),
    ensures
        closed_solution(cache, roots, selection(a)),
        demanded(cache, roots, selection(a)),
        extends(selection(a), selection(a)),
{
    let s = selection(a);
    assert forall|n: Seq<char>, r: Option<Seq<char>>|
        s.contains_key(n) && #[trigger] has_con(cons, n, r) implies req_matches(r, s[n]) by {
        let q = choose|q: int| 0 <= q < a.keys().len() && a.keys()[q] == n;
        lemma_selection_at(a, q);
        assert(has_con(cons, a.keys()[q], r));
    }
    assert forall|n: Seq<char>, r: Option<Seq<char>>| #[trigger] has_con(cons, n, r) implies s.contains_key(
        n,
    ) by {
        lemma_has_con_key(cons, n, r);
        let q = choose|q: int| 0 <= q < cons.keys().len() && cons.keys()[q] == n;
        assert(a.keys().contains(cons.keys()[q]));
    }
    assert forall|i: int| 0 <= i < roots.len() implies s.contains_key(#[trigger] roots[i].0)
        && req_matches(roots[i].1, s[roots[i].0]) by {
        assert(roots[i] == (roots[i].0, roots[i].1));
        assert(root_requires(roots, roots[i].0, roots[i].1));
        assert(has_con(cons, roots[i].0, roots[i].1));
    }
    assert forall|n: Seq<char>, d: Seq<char>, r: Option<Seq<char>>|
        s.contains_key(n) && #[trigger] declares(meta_of(cache, n, s[n]), d, r) implies s.contains_key(
            d,
        ) && req_matches(r, s[d]) by {
        assert(pinned_declares(cache, a, d, r));
        assert(has_con(cons, d, r));
    }
    assert forall|n: Seq<char>| #[trigger]
        s.contains_key(n) implies (exists|r: Option<Seq<char>>| root_requires(roots, n, r)) || (exists|
        m: Seq<char>,
        r: Option<Seq<char>>,
    | s.contains_key(m) && #[trigger] declares(meta_of(cache, m, s[m]), n, r)) by {
        assert(a.keys().contains(n));
        assert(cons.keys().contains(n));
        let i = choose|i: int| 0 <= i < cons.keys().len() && cons.keys()[i] == n;
        assert(cons.values()[i]@.len() > 0);
        let c = cons.values()[i]@[0];
        assert(has_con(cons, n, c.req@));
        if !root_requires(roots, n, c.req@) {
            assert(pinned_declares(cache, a, n, c.req@));
            let m = choose|m: Seq<char>|
                #[trigger] selection(a).contains_key(m) && declares(
                    meta_of(cache, m, selection(a)[m]),
                    n,
                    c.req@,
                );
            assert(s.contains_key(m) && declares(meta_of(cache, m, s[m]), n, c.req@));
        }
    }
}

/// Every solution that agrees with the pins gives the next package one of
/// its candidates.
proof fn lemma_solution_pins_candidate(
    cache: KeyedMap<Packument>,
    roots: RootReqs,
    cons: KeyedMap<Vec<Constraint>>,
    a: KeyedMap<SemanticVersion>,
    k: int,
    cands: Seq<SemanticVersion>,
    s: Map<Seq<char>, SemVer>,
)
    requires
        search_inv(cache, roots, cons, a),
        0 <= k < cons.size(),
        forall|v: SemVer|
            offered(cache, cons.keys()[k], v) && meets_all(cons.values()[k]@, v)
                ==> #[trigger] holds_version(cands, v),
        closed_solution(cache, roots, s),
        extends(s, selection(a)),
    ensures
        s.contains_key(cons.keys()[k]),
        holds_version(cands, s[cons.keys()[k]]),
{
    let name = cons.keys()[k];
    let cs = cons.values()[k]@;
    assert(cs.len() > 0);
    assert(has_con(cons, name, cs[0].req@));
    lemma_constraint_binds(cache, roots, cons, a, name, cs[0].req@, s);
    assert forall|j: int| 0 <= j < cs.len() implies req_matches((#[trigger] cs[j]).req@, s[name]) by {
        assert(has_con(cons, name, cs[j].req@));
        lemma_constraint_binds(cache, roots, cons, a, name, cs[j].req@, s);
    }
    assert(offered(cache, name, s[name]));
    assert(meets_all(cs, s[name]));
}

/// Pinning `name@v` and adding the requirements of its metadata keeps the
/// search state consistent.
proof fn lemma_next_state(
    cache: KeyedMap<Packument>,
    roots: RootReqs,
    cons: KeyedMap<Vec<Constraint>>,
    a: KeyedMap<SemanticVersion>,
    ncons: KeyedMap<Vec<Constraint>>,
    na: KeyedMap<SemanticVersion>,
    name: Seq<char>,
    v: SemVer,
    meta: VersionMeta,
)
    requires
        search_inv(cache, roots, cons, a),
        cons.keys().contains(name),
        !a.keys().contains(name),
        offered(cache, name, v),
        meta == meta_of(cache, name, v),
        usable(meta),
        ncons.wf(),
        forall|q: int| 0 <= q < ncons.size() ==> (#[trigger] ncons.values()[q])@.len() > 0,
        forall|n: Seq<char>, r: Option<Seq<char>>| #[trigger]
            has_con(ncons, n, r) <==> (has_con(cons, n, r) || exists|q: int|
                0 <= q < meta.dependencies.size() && #[trigger] meta.dependencies.keys()[q] == n
                    && spec_parse_req(meta.dependencies.values()[q]@) == Some(r)),
        cons.keys().to_set().subset_of(ncons.keys().to_set()),
        na.wf(),
        selection(na) == selection(a).insert(name, v),
    ensures
        search_inv(cache, roots, ncons, na),
{
    let sa = selection(a);
    let sn = selection(na);
    assert forall|n: Seq<char>, r: Option<Seq<char>>| #[trigger]
        has_con(ncons, n, r) <==> (root_requires(roots, n, r) || pinned_declares(cache, na, n, r)) by {
        if pinned_declares(cache, a, n, r) {
            let m = choose|m: Seq<char>|
                #[trigger] sa.contains_key(m) && declares(meta_of(cache, m, sa[m]), n, r);
            assert(sn.contains_key(m) && sn[m] == sa[m]);
            assert(pinned_declares(cache, na, n, r));
        }
        if declares(meta, n, r) {
            assert(sn.contains_key(name) && sn[name] == v);
            assert(pinned_declares(cache, na, n, r));
        }
        if pinned_declares(cache, na, n, r) {
            let m = choose|m: Seq<char>|
                #[trigger] sn.contains_key(m) && declares(meta_of(cache, m, sn[m]), n, r);
            if m == name {
                assert(declares(meta, n, r));
            } else {
                assert(sa.contains_key(m) && sa[m] == sn[m]);
                assert(pinned_declares(cache, a, n, r));
            }
        }
    }
    assert forall|k: Seq<char>| #[trigger]
        na.keys().contains(k) implies ncons.keys().contains(k) && offered(cache, k, sn[k]) by {
        assert(sn.contains_key(k));
        if k != name {
            assert(sa.contains_key(k));
            assert(a.keys().contains(k));
            assert(cons.keys().to_set().contains(k));
        } else {
            assert(cons.keys().to_set().contains(k));
        }
        assert(ncons.keys().to_set().contains(k));
    }
}

/// Backtracking search.
///
/// `constraints` maps each package to every requirement seen on it so far;
/// `assignment` maps each already-chosen package to its version. Returns a
/// completed assignment that extends `assignment`, or the first `Conflict`
/// that makes the current branch unsatisfiable. An error means that no
/// solution agrees with `assignment` at all.
pub(crate) fn solve(
    cache: &KeyedMap<Packument>,
    constraints: KeyedMap<Vec<Constraint>>,
    assignment: KeyedMap<SemanticVersion>,
    Ghost(roots): Ghost<RootReqs>,
    Ghost(raws): Ghost<RawReqs>,
    Ghost(order): Ghost<Seq<Seq<char>>>,
) -> (r: Result<KeyedMap<SemanticVersion>, Conflict>)
    requires
        search_inv(*cache, roots, constraints, assignment),
        cons_sound(*cache, raws, constraints),
        reached(*cache, roots, selection(assignment), order),
        cons_exact(*cache, raws, constraints, selection(assignment), order),
    ensures
        r matches Err(c) ==> conflict_sound(*cache, raws, c) && conflict_real(*cache, roots, raws, c),
        r is Ok ==> exists|order: Seq<Seq<char>>|
            #[trigger] decided(*cache, roots, selection(assignment), order, selection(r->Ok_0)),
        r matches Ok(done) ==> done.wf() && closed_solution(*cache, roots, selection(done)) && demanded(
            *cache,
            roots,
            selection(done),
        ) && extends(selection(done), selection(assignment)),
        r is Err ==> forall|s: Map<Seq<char>, SemVer>|
            closed_solution(*cache, roots, s) ==> !extends(s, selection(assignment)),
    decreases universe(*cache, roots).len() - assignment.size(),
{
    // 1. Any already-assigned package must still satisfy every constraint on
    //    it; a newly-added dependency constraint may have invalidated an
    //    earlier pick, which fails this branch.
    let na = assignment.len();
    let mut i: usize = 0;
    while i < na
        invariant
            na == assignment.size(),
            i <= na,
            search_inv(*cache, roots, constraints, assignment),
            cons_sound(*cache, raws, constraints),
            reached(*cache, roots, selection(assignment), order),
            cons_exact(*cache, raws, constraints, selection(assignment), order),
            forall|q: int, r: Option<Seq<char>>|
                0 <= q < i && #[trigger] has_con(constraints, assignment.keys()[q], r) ==> req_matches(
                    r,
                    assignment.values()[q]@,
                ),
        decreases na - i,
    {
        let name = assignment.key_at(i);
        let version = assignment.value_at(i);
        match constraints.get(name.as_str()) {
            Some(cs) => {
                let nc = cs.len();
                let mut j: usize = 0;
                while j < nc
                    invariant
                        nc == cs@.len(),
                        j <= nc,
                        search_inv(*cache, roots, constraints, assignment),
                        cons_sound(*cache, raws, constraints),
                        reached(*cache, roots, selection(assignment), order),
                        cons_exact(*cache, raws, constraints, selection(assignment), order),
                        forall|q: int, r: Option<Seq<char>>|
                            0 <= q < i && #[trigger] has_con(constraints, assignment.keys()[q], r)
                                ==> req_matches(r, assignment.values()[q]@),
                        i < na,
                        na == assignment.size(),
                        name@ == assignment.keys()[i as int],
                        *version == assignment.values()[i as int],
                        constraints.lookup(name@) == Some(*cs),
                        forall|q: int| 0 <= q < j ==> req_matches((#[trigger] cs@[q]).req@, version@),
                    decreases nc - j,
                {
                    if !cs[j].req.matches(version) {
                        proof {
                            lemma_has_con_lookup(constraints, name@, cs@[j as int].req@);
                            lemma_selection_at(assignment, i as int);
                            assert forall|s: Map<Seq<char>, SemVer>|
                                closed_solution(*cache, roots, s) implies !extends(
                                s,
                                selection(assignment),
                            ) by {
                                if extends(s, selection(assignment)) {
                                    lemma_constraint_binds(
                                        *cache,
                                        roots,
                                        constraints,
                                        assignment,
                                        name@,
                                        cs@[j as int].req@,
                                        s,
                                    );
                                }
                            }
                        }
                        let c = conflict(name, cs);
                        proof {
                            lemma_lookup_nonempty(constraints, name@);
                            lemma_conflict_sound(*cache, raws, constraints, name@, *cs, c);
                            assert(selection(assignment).contains_key(name@));
                            assert(!meets_all(cs@, selection(assignment)[name@]));
                            lemma_earlier_pins_meet(*cache, roots, constraints, assignment, i as int);
                            lemma_conflict_real(
                                *cache,
                                roots,
                                raws,
                                constraints,
                                assignment,
                                order,
                                name@,
                                *cs,
                                c,
                            );
                        }
                        return Err(c);
                    }
                    j = j + 1;
                }
                proof {
                    assert forall|r: Option<Seq<char>>| #[trigger]
                        has_con(constraints, assignment.keys()[i as int], r) implies req_matches(
                        r,
                        assignment.values()[i as int]@,
                    ) by {
                        lemma_has_con_lookup(constraints, name@, r);
                        let q = choose|q: int| 0 <= q < cs@.len() && (#[trigger] cs@[q]).req@ == r;
                    }
                }
            },
            None => {
                proof {
                    assert forall|r: Option<Seq<char>>| #[trigger]
                        has_con(constraints, assignment.keys()[i as int], r) implies req_matches(
                        r,
                        assignment.values()[i as int]@,
                    ) by {
                        lemma_has_con_lookup(constraints, name@, r);
                    }
                }
            },
        }
        i = i + 1;
    }

    // 2. Pick the next unassigned, constrained package (key order keeps the
    //    search reproducible).
    let nc = constraints.len();
    let mut k: usize = 0;
    while k < nc && assignment.index_of(constraints.key_at(k).as_str()).is_some()
        invariant
            nc == constraints.size(),
            k <= nc,
            search_inv(*cache, roots, constraints, assignment),
            forall|q: int| 0 <= q < k ==> assignment.keys().contains(#[trigger] constraints.keys()[q]),
        decreases nc - k,
    {
        proof {
            lemma_first_index(assignment.keys(), constraints.keys()[k as int]);
        }
        k = k + 1;
    }
    if k == nc {
        // Everything constrained is assigned and consistent: done.
        proof {
            lemma_finished(*cache, roots, constraints, assignment);
            lemma_decided_nothing(*cache, roots, selection(assignment));
        }
        let res: Result<KeyedMap<SemanticVersion>, Conflict> = Ok(assignment);
        assert(selection(res->Ok_0) == selection(assignment));
        return res;
    }
    proof {
        lemma_first_index(assignment.keys(), constraints.keys()[k as int]);
    }
    let name = constraints.key_at(k).clone();
    let cs = constraints.value_at(k);
    proof {
        lemma_constrained_keys(*cache, roots, constraints, assignment);
        assert forall|m: Seq<char>|
            #[trigger] constrained(*cache, roots, selection(assignment)).contains(m)
                && !selection(assignment).contains_key(m) && m != name@ implies seq_lt(name@, m) by {
            let j = choose|j: int| 0 <= j < constraints.keys().len() && constraints.keys()[j] == m;
            if j < k {
                assert(assignment.keys().contains(constraints.keys()[j]));
            }
        }
        assert(constrained(*cache, roots, selection(assignment)).contains(name@));
        assert(is_next(*cache, roots, selection(assignment), name@));
    }

    // 3. Candidate versions: those satisfying every current constraint,
    //    highest first.
    let cands = candidates(cache, name.as_str(), cs);
    proof {
        crate::keyed::lemma_sorted_first_index(constraints.keys(), k as int);
    }
    assert forall|s: Map<Seq<char>, SemVer>|
        closed_solution(*cache, roots, s) && extends(s, selection(assignment)) implies (s.contains_key(
            name@,
        ) && holds_version(cands@, s[name@])) by {
        lemma_solution_pins_candidate(*cache, roots, constraints, assignment, k as int, cands@, s);
    }
    if cands.len() == 0 {
        proof {
            assert forall|s: Map<Seq<char>, SemVer>|
                closed_solution(*cache, roots, s) implies !extends(s, selection(assignment)) by {
                if extends(s, selection(assignment)) {
                    assert(holds_version(cands@, s[name@]));
                }
            }
        }
        let c = conflict(&name, cs);
        proof {
            assert(constraints.lookup(name@) == Some(*cs));
            lemma_lookup_nonempty(constraints, name@);
            lemma_conflict_sound(*cache, raws, constraints, name@, *cs, c);
            assert forall|v: SemVer|
                offered(*cache, name@, v) && usable(meta_of(*cache, name@, v)) implies !#[trigger] meets_all(
                cs@,
                v,
            ) by {
                if meets_all(cs@, v) {
                    assert(holds_version(cands@, v));
                }
            }
            lemma_conflict_real(*cache, roots, raws, constraints, assignment, order, name@, *cs, c);
        }
        return Err(c);
    }

    // 4. Try each candidate, layering in its dependencies, and recurse.
    let mut last_err = conflict(&name, cs);
    proof {
        assert(constraints.lookup(name@) == Some(*cs));
        lemma_lookup_nonempty(constraints, name@);
        lemma_conflict_sound(*cache, raws, constraints, name@, *cs, last_err);
    }
    // Whether `last_err` comes from a failed deeper search rather than being
    // the conflict on `name` itself.
    let ghost mut replaced = false;
    let ncand = cands.len();
    let mut idx: usize = 0;
    while idx < ncand
        invariant
            ncand == cands@.len(),
            idx <= ncand,
            search_inv(*cache, roots, constraints, assignment),
            cons_sound(*cache, raws, constraints),
            conflict_sound(*cache, raws, last_err),
            is_next(*cache, roots, selection(assignment), name@),
            descending(cands@),
            constraints.keys().contains(name@),
            !assignment.keys().contains(name@),
            forall|q: int| 0 <= q < ncand ==> offered(*cache, name@, (#[trigger] cands@[q])@),
            forall|q: int| 0 <= q < ncand ==> meets_all(cs@, (#[trigger] cands@[q])@),
            forall|q: int, s: Map<Seq<char>, SemVer>|
                0 <= q < idx && closed_solution(*cache, roots, s) ==> !#[trigger] extends(
                    s,
                    selection(assignment).insert(name@, cands@[q]@),
                ),
            forall|s: Map<Seq<char>, SemVer>|
                closed_solution(*cache, roots, s) && extends(s, selection(assignment)) ==> s.contains_key(name@)
                    && #[trigger] holds_version(cands@, s[name@]),
            forall|v: SemVer|
                offered(*cache, name@, v) && meets_all(cs@, v) ==> #[trigger] holds_version(cands@, v),
            constraints.lookup(name@) == Some(*cs),
            replaced ==> conflict_real(*cache, roots, raws, last_err),
            reached(*cache, roots, selection(assignment), order),
            cons_exact(*cache, raws, constraints, selection(assignment), order),
            !replaced ==> last_err.package@ == name@ && last_err.requirements@.len() == cs@.len() && (
            forall|i: int|
                0 <= i < cs@.len() ==> (#[trigger] last_err.requirements@[i]).requester@
                    == cs@[i].requester@ && last_err.requirements@[i].range@ == cs@[i].raw@),
            !replaced ==> forall|q: int|
                0 <= q < idx ==> !usable(meta_of(*cache, name@, (#[trigger] cands@[q])@)),
        decreases ncand - idx,
    {
        let version = &cands[idx];
        let meta = version_meta(cache, name.as_str(), version).unwrap();
        let mut next_constraints = constraints.duplicate();
        proof {
            assert forall|q: int| 0 <= q < constraints.size() implies (#[trigger] next_constraints.values()[q])@
                == constraints.values()[q]@ by {
                lemma_cloned_constraints(constraints.values()[q], next_constraints.values()[q]);
            }
            assert forall|n: Seq<char>, r: Option<Seq<char>>| #[trigger]
                has_con(next_constraints, n, r) <==> has_con(constraints, n, r) by {
                if has_con(next_constraints, n, r) {
                    let (a, b) = choose|a: int, b: int|
                        0 <= a < next_constraints.size() && next_constraints.keys()[a] == n && 0 <= b
                            < next_constraints.values()[a]@.len() && (
                        #[trigger] next_constraints.values()[a]@[b]).req@ == r;
                    assert(constraints.values()[a]@[b].req@ == r);
                }
                if has_con(constraints, n, r) {
                    let (a, b) = choose|a: int, b: int|
                        0 <= a < constraints.size() && constraints.keys()[a] == n && 0 <= b
                            < constraints.values()[a]@.len() && (
                        #[trigger] constraints.values()[a]@[b]).req@ == r;
                    assert(next_constraints.values()[a]@[b].req@ == r);
                }
            }
        }
        proof {
            assert forall|n: Seq<char>, j: int|
                next_constraints.lookup(n) is Some && 0 <= j < next_constraints.lookup(n)->0@.len()
                    implies requirement_sound(
                *cache,
                raws,
                n,
                (#[trigger] next_constraints.lookup(n)->0@[j]).requester@,
                next_constraints.lookup(n)->0@[j].raw@,
            ) && spec_parse_req(next_constraints.lookup(n)->0@[j].raw@) == Some(
                next_constraints.lookup(n)->0@[j].req@,
            ) by {
                lemma_first_index(constraints.keys(), n);
                assert(next_constraints.lookup(n)->0@ == constraints.lookup(n)->0@);
            }
        }
        let requester = label(name.as_str(), version);
        proof {
            use_type_invariant(&meta.dependencies);
            assert forall|n: Seq<char>| #[trigger] recorded(next_constraints, n) == reqs_on(
                *cache,
                raws,
                selection(assignment),
                order,
                n,
            ) + deps_upto(meta.dependencies, 0, requester@, n) by {
                lemma_first_index(constraints.keys(), n);
                assert(recorded(constraints, n) == reqs_on(*cache, raws, selection(assignment), order, n));
                if constraints.lookup(n) is Some {
                    assert(next_constraints.lookup(n)->0@ == constraints.lookup(n)->0@);
                }
                assert(recorded(next_constraints, n) =~= recorded(next_constraints, n) + Seq::<
                    (Seq<char>, Seq<char>),
                >::empty());
            }
        }
        let nd = meta.dependencies.len();
        let mut d: usize = 0;
        let mut ok = true;
        while d < nd && ok
            invariant
                nd == meta.dependencies.size(),
                d <= nd,
                next_constraints.wf(),
                forall|q: int|
                    0 <= q < next_constraints.size() ==> (#[trigger] next_constraints.values()[q])@.len()
                        > 0,
                forall|n: Seq<char>, r: Option<Seq<char>>| #[trigger]
                    has_con(next_constraints, n, r) <==> (has_con(constraints, n, r) || exists|q: int|
                        0 <= q < d && #[trigger] meta.dependencies.keys()[q] == n && spec_parse_req(
                            meta.dependencies.values()[q]@,
                        ) == Some(r)),
                constraints.keys().to_set().subset_of(next_constraints.keys().to_set()),
                cons_sound(*cache, raws, next_constraints),
                offered(*cache, name@, version@),
                *meta == meta_of(*cache, name@, version@),
                requester@ == label_text(name@, version@),
                crate::keyed::strictly_sorted(meta.dependencies.keys()),
                ok ==> forall|q: int|
                    0 <= q < d ==> (#[trigger] spec_parse_req(meta.dependencies.values()[q]@)) is Some,
                !ok ==> d > 0 && spec_parse_req(meta.dependencies.values()[d - 1]@) is None,
                ok ==> forall|n: Seq<char>| #[trigger] recorded(next_constraints, n) == reqs_on(
                    *cache,
                    raws,
                    selection(assignment),
                    order,
                    n,
                ) + deps_upto(meta.dependencies, d as int, requester@, n),
            decreases nd - d,
        {
            let dep_name = meta.dependencies.key_at(d);
            let dep_raw = meta.dependencies.value_at(d);
            // A range that cannot be parsed cannot be satisfied: this
            // candidate fails.
            match parse_req(dep_raw.as_str()) {
                Ok(req) => {
                    let c = Constraint { requester: requester.clone(), raw: dep_raw.clone(), req };
                    let ghost before = next_constraints;
                    add_constraint(&mut next_constraints, dep_name.clone(), c);
                    proof {
                        crate::keyed::lemma_sorted_first_index(meta.dependencies.keys(), d as int);
                        assert(meta_of(*cache, name@, version@).dependencies.lookup(dep_name@) == Some(
                            *dep_raw,
                        ));
                        assert(label_text(name@, version@) == c.requester@);
                        lemma_cons_sound_add(*cache, raws, before, next_constraints, dep_name@, c);
                        let keys = meta.dependencies.keys();
                        assert forall|n: Seq<char>| #[trigger] recorded(next_constraints, n) == reqs_on(
                            *cache,
                            raws,
                            selection(assignment),
                            order,
                            n,
                        ) + deps_upto(meta.dependencies, d + 1, requester@, n) by {
                            assert(recorded(before, n) == reqs_on(
                                *cache,
                                raws,
                                selection(assignment),
                                order,
                                n,
                            ) + deps_upto(meta.dependencies, d as int, requester@, n));
                            if n == dep_name@ {
                                assert(keys[d as int] == n);
                                assert(!exists|q: int| 0 <= q < d && keys[q] == n) by {
                                    if exists|q: int| 0 <= q < d && keys[q] == n {
                                        let q = choose|q: int| 0 <= q < d && keys[q] == n;
                                        assert(seq_lt(keys[q], keys[d as int]));
                                        crate::text::lemma_seq_lt_irreflexive(n);
                                    }
                                }
                                assert(meta.dependencies.lookup(n) == Some(*dep_raw));
                                assert(con_texts(next_constraints.lookup(n)->0@) =~= recorded(before, n).push(
                                    (c.requester@, c.raw@),
                                ));
                                assert(recorded(next_constraints, n) =~= reqs_on(
                                    *cache,
                                    raws,
                                    selection(assignment),
                                    order,
                                    n,
                                ) + deps_upto(meta.dependencies, d + 1, requester@, n));
                            } else {
                                assert(next_constraints.lookup(n) == before.lookup(n));
                                assert((exists|q: int| 0 <= q < d + 1 && keys[q] == n) == (exists|q: int|
                                    0 <= q < d && keys[q] == n));
                            }
                        }
                    }
                },
                Err(_) => {
                    ok = false;
                },
            }
            d = d + 1;
        }
        if !ok {
            proof {
                assert forall|s: Map<Seq<char>, SemVer>|
                    closed_solution(*cache, roots, s) implies !#[trigger] extends(
                    s,
                    selection(assignment).insert(name@, cands@[idx as int]@),
                ) by {
                    if extends(s, selection(assignment).insert(name@, cands@[idx as int]@)) {
                        assert(selection(assignment).insert(name@, cands@[idx as int]@).contains_key(name@));
                        assert(s.contains_key(name@));
                        assert(usable(meta_of(*cache, name@, s[name@])));
                        assert(spec_parse_req(meta.dependencies.values()[d - 1]@) is Some);
                    }
                }
            }
            idx = idx + 1;
            continue;
        }
        proof {
            assert forall|q: int| 0 <= q < meta.dependencies.size() implies (#[trigger] spec_parse_req(
                meta.dependencies.values()[q]@,
            )) is Some by {}
            assert(usable(*meta));
            assert forall|n: Seq<char>|
                deps_upto(meta.dependencies, nd as int, requester@, n) == decl_on(
                    *cache,
                    name@,
                    version@,
                    n,
                ) by {
                lemma_first_index(meta.dependencies.keys(), n);
                if meta.dependencies.keys().contains(n) {
                    let q = choose|q: int|
                        0 <= q < meta.dependencies.keys().len() && meta.dependencies.keys()[q] == n;
                    assert(0 <= q < nd && meta.dependencies.keys()[q] == n);
                }
            }
            let a0 = selection(assignment);
            let v0 = version@;
            assert forall|r: Option<Seq<char>>|
                (root_requires(roots, name@, r) || exists|m: Seq<char>|
                    a0.contains_key(m) && #[trigger] declares(meta_of(*cache, m, a0[m]), name@, r))
                    implies req_matches(r, v0) by {
                if !root_requires(roots, name@, r) {
                    let m = choose|m: Seq<char>|
                        a0.contains_key(m) && #[trigger] declares(meta_of(*cache, m, a0[m]), name@, r);
                    assert(pinned_declares(*cache, assignment, name@, r));
                }
                assert(has_con(constraints, name@, r));
                lemma_has_con_lookup(constraints, name@, r);
                let j = choose|j: int| 0 <= j < cs@.len() && (#[trigger] cs@[j]).req@ == r;
                assert(meets_all(cs@, cands@[idx as int]@));
            }
            assert(admissible(*cache, roots, a0, name@, v0));
            lemma_reached_step(*cache, roots, a0, order, name@, v0);
        }
        let mut next_assignment = assignment.duplicate();
        let ghost copy = next_assignment;
        next_assignment.insert(name.clone(), version.clone());
        proof {
            lemma_pin_fresh(assignment, copy, next_assignment, name@, *version);
            lemma_pins_bounded(*cache, roots, constraints, assignment, name@);
            assert forall|n: Seq<char>| #[trigger] recorded(next_constraints, n) == reqs_on(
                *cache,
                raws,
                selection(next_assignment),
                order.push(name@),
                n,
            ) by {
                lemma_reqs_on_push(
                    *cache,
                    raws,
                    selection(assignment),
                    order,
                    name@,
                    version@,
                    n,
                );
            }
            lemma_next_state(
                *cache,
                roots,
                constraints,
                assignment,
                next_constraints,
                next_assignment,
                name@,
                version@,
                *meta,
            );
        }
        match solve(
            cache,
            next_constraints,
            next_assignment,
            Ghost(roots),
            Ghost(raws),
            Ghost(order.push(name@)),
        ) {
            Ok(done) => {
                proof {
                    assert forall|key: Seq<char>| #[trigger]
                        selection(assignment).contains_key(key) implies selection(done).contains_key(key)
                        && selection(done)[key] == selection(assignment)[key] by {
                        assert(selection(next_assignment).contains_key(key));
                        assert(key != name@);
                    }
                    assert forall|t: Map<Seq<char>, SemVer>|
                        closed_solution(*cache, roots, t) && extends(t, selection(assignment))
                            implies (t.contains_key(name@) && holds_version(cands@, t[name@])) by {
                        assert(holds_version(cands@, t[name@]));
                    }
                    lemma_decided_step(
                        *cache,
                        roots,
                        selection(assignment),
                        name@,
                        cands@,
                        idx as int,
                        selection(done),
                    );
                }
                return Ok(done);
            },
            Err(e) => {
                last_err = e;
                proof {
                    replaced = true;
                }
            },
        }
        idx = idx + 1;
    }
    assert forall|s: Map<Seq<char>, SemVer>|
        closed_solution(*cache, roots, s) implies !extends(s, selection(assignment)) by {
        if extends(s, selection(assignment)) {
            assert(holds_version(cands@, s[name@]));
            let q = choose|q: int| 0 <= q < cands@.len() && (#[trigger] cands@[q])@ == s[name@];
            assert(extends(s, selection(assignment).insert(name@, cands@[q]@)));
        }
    }
    proof {
        if !replaced {
            assert forall|v: SemVer|
                offered(*cache, name@, v) && usable(meta_of(*cache, name@, v)) implies !#[trigger] meets_all(
                cs@,
                v,
            ) by {
                if meets_all(cs@, v) {
                    assert(holds_version(cands@, v));
                    let q = choose|q: int| 0 <= q < cands@.len() && (#[trigger] cands@[q])@ == v;
                    assert(!usable(meta_of(*cache, name@, cands@[q]@)));
                }
            }
            lemma_conflict_real(*cache, roots, raws, constraints, assignment, order, name@, *cs, last_err);
        }
    }
    Err(last_err)
}

} // verus!
