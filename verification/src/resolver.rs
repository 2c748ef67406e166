//! Dependency resolution: turning version *requirements* into an exact,
//! conflict-free set of package versions.
//!
//! Resolution runs in two phases so that the search itself stays pure:
//! first every reachable packument is gathered into a cache (see
//! [`crate::fetch`]); then a backtracking search over that cache (see
//! [`crate::solver`]) pins one version per package, always trying the highest
//! version that satisfies every requirement first.

use vstd::prelude::*;

use crate::error::{describes, QuayError};
use crate::keyed::KeyedMap;
use crate::package::{valid_package_name, PackageId, PackageName};
use crate::registry::Packument;
use crate::solver::{
    closed_solution, con_texts, conflict_real, conflict_sound, cons_sound, decided, reached, recorded,
    reqs_on, root_reqs_on, demanded, has_con, lemma_cons_sound_add,
    meta_of, root_requires, search_inv, selection, solve, RawReqs, RootReqs,
};
use crate::text::{spec_trim, str_eq, trim};
use crate::versions::{semver_req_parses, SemVer, SemanticVersion, VersionRequirement};

verus! {

/// What a requirement string means: `None` if it is not a valid requirement,
/// `Some(None)` for "any release" (empty, `latest` or `*` after trimming),
/// and `Some(Some(t))` for the requirement `semver` parses from the trimmed
/// text `t`.
pub open spec fn spec_parse_req(raw: Seq<char>) -> Option<Option<Seq<char>>> {
    let t = spec_trim(raw);
    if t.len() == 0 || t == seq!['l', 'a', 't', 'e', 's', 't'] || t == seq!['*'] {
        Some(None)
    } else if semver_req_parses(t) {
        Some(Some(t))
    } else {
        None
    }
}

/// What a requirement string means, in terms of its trimmed text: the
/// empty text, `latest` and `*` accept any release; any other text means
/// exactly the requirement `semver` parses from it, unchanged, and is invalid
/// when `semver` refuses it.
pub proof fn lemma_requirement_text(raw: Seq<char>)
    ensures
        spec_parse_req(raw) == Some(None::<Seq<char>>) <==> (spec_trim(raw).len() == 0 || spec_trim(raw)
            == seq!['l', 'a', 't', 'e', 's', 't'] || spec_trim(raw) == seq!['*']),
        forall|t: Seq<char>|
            spec_parse_req(raw) == Some(Some(t)) ==> t == spec_trim(raw) && semver_req_parses(t),
        spec_parse_req(raw) is None <==> !(spec_trim(raw).len() == 0 || spec_trim(raw) == seq![
            'l',
            'a',
            't',
            'e',
            's',
            't',
        ] || spec_trim(raw) == seq!['*']) && !semver_req_parses(spec_trim(raw)),
{
}

/// Parses a requirement string, treating an empty string (and `latest`/`*`,
/// which npm uses for "any version") as "match anything".
pub fn parse_req(raw: &str) -> (r: Result<VersionRequirement, QuayError>)
    ensures
        r is Ok <==> spec_parse_req(raw@) is Some,
        r matches Ok(q) ==> spec_parse_req(raw@) == Some(q@),
        r matches Err(e) ==> e matches QuayError::InvalidVersionReq(s, _) && s@ == raw@,
        r matches Ok(q) ==> (q@ is None <==> (spec_trim(raw@).len() == 0 || spec_trim(raw@) == seq![
            'l',
            'a',
            't',
            'e',
            's',
            't',
        ] || spec_trim(raw@) == seq!['*'])),
        r matches Ok(q) ==> (q@ is Some ==> q@ == Some(spec_trim(raw@)) && semver_req_parses(
            spec_trim(raw@),
        )),
        r is Err <==> !(spec_trim(raw@).len() == 0 || spec_trim(raw@) == seq!['l', 'a', 't', 'e', 's', 't']
            || spec_trim(raw@) == seq!['*']) && !semver_req_parses(spec_trim(raw@)),
{
    let trimmed = trim(raw);
    proof {
        reveal_strlit("latest");
        reveal_strlit("*");
        assert("latest"@ =~= seq!['l', 'a', 't', 'e', 's', 't']);
        assert("*"@ =~= seq!['*']);
    }
    if trimmed.unicode_len() == 0 || str_eq(trimmed, "latest") || str_eq(trimmed, "*") {
        return Ok(VersionRequirement::any());
    }
    match VersionRequirement::parse(trimmed) {
        Ok(q) => Ok(q),
        Err(e) => Err(QuayError::InvalidVersionReq(raw.to_owned(), e)),
    }
}

/// One requirement placed on a package: who asked for it, the range as
/// written, and the parsed range used for matching.
#[derive(Debug)]
pub struct Constraint {
    /// `name@version` of the package that introduced this requirement, or
    /// `(root)` for a direct dependency from the manifest.
    pub requester: String,
    pub raw: String,
    pub req: VersionRequirement,
}

impl Clone for Constraint {
    fn clone(&self) -> (r: Self)
        ensures
            r == *self,
    {
        Constraint { requester: self.requester.clone(), raw: self.raw.clone(), req: self.req.clone() }
    }
}

/// One side of a [`Conflict`]: a requester and the range it demanded.
#[derive(Debug, Clone)]
pub struct ConflictingRequirement {
    pub requester: String,
    pub range: String,
}

/// A resolution failure: no single version of `package` satisfies every
/// requirement placed on it.
#[derive(Debug, Clone)]
pub struct Conflict {
    pub package: String,
    pub requirements: Vec<ConflictingRequirement>,
}

/// `requester needs range`, joined by `, `.
pub open spec fn requirements_text(rs: Seq<ConflictingRequirement>) -> Seq<char>
    decreases rs.len(),
{
    if rs.len() == 0 {
        Seq::empty()
    } else {
        let item = rs.last().requester@ + " needs "@ + rs.last().range@;
        if rs.len() == 1 {
            item
        } else {
            requirements_text(rs.drop_last()) + ", "@ + item
        }
    }
}

/// The message for a conflict.
pub open spec fn conflict_text(c: Conflict) -> Seq<char> {
    "no version of `"@ + c.package@ + "` satisfies all requirements: "@ + requirements_text(
        c.requirements@,
    )
}

impl Conflict {
    /// `` no version of `b` satisfies all requirements: a@1.0.0 needs ^1.0.0, c@1.0.0 needs ^2.0.0 ``
    pub fn to_string(&self) -> (r: String)
        ensures
            r@ == conflict_text(*self),
    {
        let mut r = String::new();
        r.append("no version of `");
        r.append(self.package.as_str());
        r.append("` satisfies all requirements: ");
        let ghost head = r@;
        let n = self.requirements.len();
        let mut i: usize = 0;
        while i < n
            invariant
                n == self.requirements@.len(),
                i <= n,
                r@ == head + requirements_text(self.requirements@.take(i as int)),
            decreases n - i,
        {
            let ghost before = r@;
            if i > 0 {
                r.append(", ");
            }
            r.append(self.requirements[i].requester.as_str());
            r.append(" needs ");
            r.append(self.requirements[i].range.as_str());
            assert(self.requirements@.take(i + 1).drop_last() =~= self.requirements@.take(
                i as int,
            ));
            i = i + 1;
        }
        assert(self.requirements@.take(n as int) =~= self.requirements@);
        r
    }
}

/// Why a resolution failed.
#[derive(Debug)]
pub enum ResolveError {
    /// A requirement or package name was invalid.
    Invalid(QuayError),
    /// The requirements cannot all be met.
    Conflict(Conflict),
}

impl ResolveError {
    /// The human-readable message.
    pub fn to_string(&self) -> (r: String)
        ensures
            self matches ResolveError::Conflict(c) ==> r@ == conflict_text(*c),
            self matches ResolveError::Invalid(e) ==> describes(*e, r@),
    {
        match self {
            ResolveError::Invalid(e) => e.to_string(),
            ResolveError::Conflict(c) => c.to_string(),
        }
    }
}

/// A single resolved package: a pinned id together with everything needed to
/// fetch and verify it.
#[derive(Debug, Clone)]
pub struct ResolvedPackage {
    /// The package name pinned to an exact version.
    pub id: PackageId,
    /// URL of the `.tgz` tarball.
    pub tarball: String,
    /// Integrity hash (e.g. `sha512-...`), if the registry advertised one.
    pub integrity: Option<String>,
}

/// A resolved dependency graph: every package pinned to one exact version,
/// keyed by package name.
#[derive(Debug)]
pub struct Resolution {
    pub packages: KeyedMap<ResolvedPackage>,
}


/// Every direct requirement parses.
pub open spec fn all_parse(direct: Seq<(String, String)>) -> bool {
    forall|i: int| 0 <= i < direct.len() ==> (#[trigger] spec_parse_req(direct[i].1@)) is Some
}

/// The manifest's requirements, parsed.
pub open spec fn root_reqs(direct: Seq<(String, String)>) -> RootReqs {
    Seq::new(direct.len(), |i: int| (direct[i].0@, spec_parse_req(direct[i].1@)->0))
}

/// The manifest's requirements as written, by their text.
pub open spec fn direct_texts(direct: Seq<(String, String)>) -> RawReqs {
    direct.map_values(|p: (String, String)| (p.0@, p.1@))
}

/// The versions a resolution pins, by package name.
pub open spec fn pins(res: KeyedMap<ResolvedPackage>) -> Map<Seq<char>, SemVer> {
    Map::new(
        |k: Seq<char>| res.keys().contains(k),
        |k: Seq<char>|
            match res.lookup(k) {
                Some(p) => p.id.version@,
                None => arbitrary(),
            },
    )
}

/// An optional string, by its characters.
pub open spec fn opt_text(o: Option<String>) -> Option<Seq<char>> {
    match o {
        Some(s) => Some(s@),
        None => None,
    }
}

/// Resolves a manifest's direct dependencies (and their transitive ones)
/// against the cached packuments into a fully pinned resolution.
///
/// `direct` is `(name, version_req)` straight from package.json. An invalid
/// requirement fails before anything else; otherwise the result is a
/// selection that meets every requirement of the manifest and of every
/// selected version, or a conflict when no such selection exists. Packages
/// are decided in key order, each at the highest version that still leaves a
/// solution; a conflict names only requirements that were really made.
pub fn resolve(direct: &Vec<(String, String)>, cache: &KeyedMap<Packument>) -> (r: Result<
    Resolution,
    ResolveError,
>)
    ensures
        !all_parse(direct@) <==> r matches Err(ResolveError::Invalid(QuayError::InvalidVersionReq(_, _))),
        r matches Err(ResolveError::Invalid(QuayError::InvalidVersionReq(raw, _))) ==> exists|i: int|
            0 <= i < direct@.len() && raw@ == direct@[i].1@ && spec_parse_req(direct@[i].1@) is None
                && forall|j: int| 0 <= j < i ==> #[trigger] spec_parse_req(direct@[j].1@) is Some,
        r is Ok ==> exists|order: Seq<Seq<char>>|
            #[trigger] decided(*cache, root_reqs(direct@), Map::empty(), order, pins(r->Ok_0.packages)),
        r matches Ok(res) ==> {
            &&& res.packages.wf()
            &&& closed_solution(*cache, root_reqs(direct@), pins(res.packages))
            &&& demanded(*cache, root_reqs(direct@), pins(res.packages))
            &&& forall|k: Seq<char>|
                #[trigger] res.packages.lookup(k) matches Some(p) ==> {
                    &&& p.id.name@ == k
                    &&& p.tarball@ == meta_of(*cache, k, p.id.version@).dist.tarball@
                    &&& opt_text(p.integrity) == opt_text(meta_of(*cache, k, p.id.version@).dist.integrity)
                }
        },
        r matches Err(ResolveError::Conflict(_)) ==> forall|s: Map<Seq<char>, SemVer>|
            !closed_solution(*cache, root_reqs(direct@), s),
        r matches Err(ResolveError::Conflict(c)) ==> conflict_sound(*cache, direct_texts(direct@), c)
            && conflict_real(*cache, root_reqs(direct@), direct_texts(direct@), c),
        r matches Err(ResolveError::Invalid(QuayError::InvalidPackageName(n))) ==> !valid_package_name(n@)
            && exists|s: Map<Seq<char>, SemVer>, order: Seq<Seq<char>>|
            #[trigger] decided(*cache, root_reqs(direct@), Map::empty(), order, s) && closed_solution(
                *cache,
                root_reqs(direct@),
                s,
            ) && demanded(*cache, root_reqs(direct@), s) && s.contains_key(n@),
        r matches Err(ResolveError::Invalid(e)) ==> e is InvalidVersionReq || e is InvalidPackageName,
{
    let ghost roots = root_reqs(direct@);
    let ghost raws = direct_texts(direct@);
    // Parse the direct requirements first so that a bad range fails fast.
    let mut initial: KeyedMap<Vec<Constraint>> = KeyedMap::new();
    let n = direct.len();
    let mut i: usize = 0;
    proof {
        assert forall|nm: Seq<char>| #[trigger] recorded(initial, nm) == root_reqs_on(raws.take(0), nm) by {
            crate::keyed::lemma_first_index(initial.keys(), nm);
            assert(raws.take(0) =~= Seq::<(Seq<char>, Seq<char>)>::empty());
        }
    }
    while i < n
        invariant
            forall|nm: Seq<char>| #[trigger] recorded(initial, nm) == root_reqs_on(raws.take(i as int), nm),
            raws.len() == n,
            n == direct@.len(),
            i <= n,
            roots == root_reqs(direct@),
            raws == direct_texts(direct@),
            initial.wf(),
            cons_sound(*cache, raws, initial),
            forall|q: int| 0 <= q < initial.size() ==> (#[trigger] initial.values()[q])@.len() > 0,
            forall|q: int| 0 <= q < i ==> (#[trigger] spec_parse_req(direct@[q].1@)) is Some,
            forall|nm: Seq<char>, rq: Option<Seq<char>>| #[trigger]
                has_con(initial, nm, rq) <==> exists|q: int| 0 <= q < i && #[trigger] roots[q] == (nm, rq),
        decreases n - i,
    {
        let name = &direct[i].0;
        let raw = &direct[i].1;
        let req = match parse_req(raw.as_str()) {
            Ok(q) => q,
            Err(e) => {
                return Err(ResolveError::Invalid(e));
            },
        };
        let c = Constraint { requester: "(root)".to_owned(), raw: raw.clone(), req };
        let ghost before = initial;
        add_constraint_root(&mut initial, name.clone(), c);
        proof {
            assert(raws[i as int] == (name@, c.raw@));
            lemma_cons_sound_add(*cache, raws, before, initial, name@, c);
            assert(raws.take(i + 1).drop_last() =~= raws.take(i as int));
            assert forall|nm: Seq<char>| #[trigger] recorded(initial, nm) == root_reqs_on(raws.take(i + 1), nm) by {
                assert(recorded(before, nm) == root_reqs_on(raws.take(i as int), nm));
                if nm == name@ {
                    assert(con_texts(initial.lookup(nm)->0@) =~= recorded(before, nm).push((c.requester@, c.raw@)));
                }
            }
            assert(roots[i as int] == (name@, c.req@));
            assert forall|nm: Seq<char>, rq: Option<Seq<char>>| #[trigger]
                has_con(initial, nm, rq) <==> exists|q: int| 0 <= q < i + 1 && #[trigger] roots[q] == (nm, rq) by {
                if nm == name@ && rq == c.req@ {
                    assert(roots[i as int] == (nm, rq));
                }
                if exists|q: int| 0 <= q < i + 1 && #[trigger] roots[q] == (nm, rq) {
                    let q = choose|q: int| 0 <= q < i + 1 && #[trigger] roots[q] == (nm, rq);
                    if q < i {
                        assert(exists|q: int| 0 <= q < i && #[trigger] roots[q] == (nm, rq));
                    }
                }
            }
        }
        i = i + 1;
    }
    let empty: KeyedMap<SemanticVersion> = KeyedMap::new();
    proof {
        assert(selection(empty) =~= Map::empty());
        assert forall|nm: Seq<char>, rq: Option<Seq<char>>| #[trigger]
            has_con(initial, nm, rq) <==> (root_requires(roots, nm, rq) || crate::solver::pinned_declares(
                *cache,
                empty,
                nm,
                rq,
            )) by {
            if root_requires(roots, nm, rq) {
                let q = choose|q: int| 0 <= q < roots.len() && #[trigger] roots[q] == (nm, rq);
                assert(exists|q: int| 0 <= q < n && #[trigger] roots[q] == (nm, rq));
            }
        }
        assert(search_inv(*cache, roots, initial, empty));
        assert(raws.take(n as int) =~= raws);
        let none = Seq::<Seq<char>>::empty();
        assert forall|nm: Seq<char>| #[trigger] recorded(initial, nm) == reqs_on(
            *cache,
            raws,
            selection(empty),
            none,
            nm,
        ) by {
            assert(reqs_on(*cache, raws, selection(empty), none, nm) =~= root_reqs_on(raws, nm));
        }
        assert(selection(empty).dom() =~= none.to_set());
        assert(reached(*cache, roots, selection(empty), none));
    }
    let selected = match solve(
        cache,
        initial,
        empty,
        Ghost(roots),
        Ghost(raws),
        Ghost(Seq::<Seq<char>>::empty()),
    ) {
        Ok(s) => s,
        Err(c) => {
            return Err(ResolveError::Conflict(c));
        },
    };
    // Materialise the pinned graph into resolved packages.
    let mut packages: KeyedMap<ResolvedPackage> = KeyedMap::new();
    let ghost sel = selection(selected);
    let ghost order = choose|o: Seq<Seq<char>>| decided(*cache, roots, selection(empty), o, sel);
    assert(decided(*cache, roots, Map::empty(), order, sel));
    let ns = selected.len();
    let mut q: usize = 0;
    while q < ns
        invariant
            ns == selected.size(),
            q <= ns,
            selected.wf(),
            sel == selection(selected),
            closed_solution(*cache, roots, sel),
            demanded(*cache, roots, sel),
            decided(*cache, roots, Map::empty(), order, sel),
            all_parse(direct@),
            roots == root_reqs(direct@),
            packages.wf(),
            forall|k: Seq<char>|
                #[trigger] packages.lookup(k) matches Some(p) ==> {
                    &&& exists|j: int| 0 <= j < q && selected.keys()[j] == k
                    &&& p.id.name@ == k
                    &&& p.id.version@ == sel[k]
                    &&& p.tarball@ == meta_of(*cache, k, sel[k]).dist.tarball@
                    &&& opt_text(p.integrity) == opt_text(meta_of(*cache, k, sel[k]).dist.integrity)
                },
            forall|j: int| 0 <= j < q ==> packages.keys().contains(#[trigger] selected.keys()[j]),
            forall|k: Seq<char>| packages.keys().contains(k) <==> #[trigger] packages.lookup(k) is Some,
        decreases ns - q,
    {
        let name = selected.key_at(q);
        let version = selected.value_at(q);
        proof {
            crate::keyed::lemma_sorted_first_index(selected.keys(), q as int);
            assert(sel.contains_key(name@));
        }
        let meta = crate::solver::version_meta(cache, name.as_str(), version).unwrap();
        let id = match PackageName::parse(name.clone()) {
            Ok(pn) => PackageId { name: pn, version: version.clone() },
            Err(e) => {
                proof {
                    assert(sel.contains_key(name@));
                    assert(decided(*cache, roots, Map::empty(), order, sel) && closed_solution(
                        *cache,
                        roots,
                        sel,
                    ) && demanded(*cache, roots, sel) && sel.contains_key(name@));
                }
                return Err(ResolveError::Invalid(e));
            },
        };
        let integrity = match &meta.dist.integrity {
            Some(s) => Some(s.clone()),
            None => None,
        };
        let pkg = ResolvedPackage { id, tarball: meta.dist.tarball.clone(), integrity };
        let ghost before = packages;
        packages.insert(name.clone(), pkg);
        proof {
            assert forall|k: Seq<char>| #[trigger] packages.lookup(k) is Some implies {
                let p = packages.lookup(k)->0;
                &&& exists|j: int| 0 <= j < q + 1 && selected.keys()[j] == k
                &&& p.id.name@ == k
                &&& p.id.version@ == sel[k]
                &&& p.tarball@ == meta_of(*cache, k, sel[k]).dist.tarball@
                &&& opt_text(p.integrity) == opt_text(meta_of(*cache, k, sel[k]).dist.integrity)
            } by {
                if k != name@ {
                    assert(before.lookup(k) == packages.lookup(k));
                    let j = choose|j: int| 0 <= j < q && selected.keys()[j] == k;
                    assert(0 <= j < q + 1 && selected.keys()[j] == k);
                } else {
                    assert(selected.keys()[q as int] == k);
                }
            }
            assert forall|j: int| 0 <= j < q + 1 implies packages.keys().contains(#[trigger] selected.keys()[j]) by {
                assert(packages.keys().to_set().contains(selected.keys()[j]));
            }
            assert forall|k: Seq<char>| packages.keys().contains(k) <==> #[trigger] packages.lookup(k) is Some by {
                crate::keyed::lemma_first_index(packages.keys(), k);
            }
        }
        q = q + 1;
    }
    proof {
        assert forall|k: Seq<char>| #[trigger] pins(packages).contains_key(k) <==> sel.contains_key(k) by {
            if packages.keys().contains(k) {
                assert(packages.lookup(k) is Some);
                let j = choose|j: int| 0 <= j < ns && selected.keys()[j] == k;
            }
            if sel.contains_key(k) {
                let j = choose|j: int| 0 <= j < selected.keys().len() && selected.keys()[j] == k;
                assert(packages.keys().contains(selected.keys()[j]));
            }
        }
        assert forall|k: Seq<char>| pins(packages).contains_key(k) implies #[trigger] pins(packages)[k] == sel[k] by {
            assert(packages.lookup(k) is Some);
        }
        assert(pins(packages) =~= sel);
    }
    let res: Result<Resolution, ResolveError> = Ok(Resolution { packages });
    assert(pins(res->Ok_0.packages) == sel);
    res
}

/// Adds a manifest requirement to the initial constraints.
fn add_constraint_root(cons: &mut KeyedMap<Vec<Constraint>>, name: String, c: Constraint)
    requires
        old(cons).wf(),
        forall|i: int| 0 <= i < old(cons).size() ==> (#[trigger] old(cons).values()[i])@.len() > 0,
    ensures
        final(cons).wf(),
        forall|i: int| 0 <= i < final(cons).size() ==> (#[trigger] final(cons).values()[i])@.len() > 0,
        forall|n: Seq<char>, r: Option<Seq<char>>|
            #[trigger] has_con(*final(cons), n, r) <==> (has_con(*old(cons), n, r) || (n == name@ && r
                == c.req@)),
        final(cons).lookup(name@) is Some,
        final(cons).lookup(name@)->0@ == (match old(cons).lookup(name@) {
            Some(v) => v@,
            None => Seq::empty(),
        }).push(c),
        forall|n: Seq<char>| n != name@ ==> #[trigger] final(cons).lookup(n) == old(cons).lookup(n),
{
    crate::solver::add_constraint(cons, name, c);
}

} // verus!
