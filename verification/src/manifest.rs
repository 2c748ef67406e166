//! The part of `package.json` that Quay reads. Quay is npm-compatible by
//! design: it reads the same manifest the rest of the ecosystem uses.

use vstd::prelude::*;

use crate::keyed::KeyedMap;

verus! {

#[verifier::external_type_specification]
#[verifier::external_body]
pub struct ExJsonValue(serde_json::Value);

/// A subset of `package.json`. Fields not modelled yet are kept verbatim in
/// `extra` so that nothing is lost on a round trip.
#[derive(Debug)]
pub struct Manifest {
    pub name: Option<String>,
    pub version: Option<String>,
    pub dependencies: KeyedMap<String>,
    pub dev_dependencies: KeyedMap<String>,
    pub scripts: KeyedMap<String>,
    pub extra: KeyedMap<serde_json::Value>,
}

/// Runtime dependencies followed by dev dependencies, each in key order.
pub open spec fn all_dependencies_view(m: Manifest) -> Seq<(Seq<char>, Seq<char>)> {
    Seq::new(m.dependencies.size(), |i: int| (m.dependencies.keys()[i], m.dependencies.values()[i]@))
        + Seq::new(
        m.dev_dependencies.size(),
        |i: int| (m.dev_dependencies.keys()[i], m.dev_dependencies.values()[i]@),
    )
}

/// Every runtime dependency comes first, in key order, then every dev
/// dependency, in key order; nothing is dropped or added.
pub proof fn lemma_all_dependencies(m: Manifest)
    ensures
        all_dependencies_view(m).len() == m.dependencies.size() + m.dev_dependencies.size(),
        forall|i: int|
            0 <= i < m.dependencies.size() ==> #[trigger] all_dependencies_view(m)[i] == (
            m.dependencies.keys()[i],
            m.dependencies.values()[i]@,
        ),
        forall|j: int|
            0 <= j < m.dev_dependencies.size() ==> #[trigger] all_dependencies_view(m)[m.dependencies.size()
                + j] == (m.dev_dependencies.keys()[j], m.dev_dependencies.values()[j]@),
{
}

fn append_pairs(out: &mut Vec<(String, String)>, from: &KeyedMap<String>)
    ensures
        final(out)@.len() == old(out)@.len() + from.size(),
        forall|i: int| 0 <= i < old(out)@.len() ==> #[trigger] final(out)@[i] == old(out)@[i],
        forall|i: int|
            0 <= i < from.size() ==> (#[trigger] final(out)@[old(out)@.len() + i]).0@
                == from.keys()[i] && final(out)@[old(out)@.len() + i].1@ == from.values()[i]@,
{
    let n = from.len();
    let ghost start = out@.len();
    let mut i: usize = 0;
    while i < n
        invariant
            n == from.size(),
            i <= n,
            out@.len() == start + i,
            start == old(out)@.len(),
            forall|j: int| 0 <= j < start ==> #[trigger] out@[j] == old(out)@[j],
            forall|j: int|
                0 <= j < i ==> (#[trigger] out@[start + j]).0@ == from.keys()[j] && out@[start
                    + j].1@ == from.values()[j]@,
        decreases n - i,
    {
        let k = from.key_at(i).clone();
        let v = from.value_at(i).clone();
        out.push((k, v));
        i = i + 1;
    }
}

impl Default for Manifest {
    /// A manifest with no name, no version and every map empty.
    fn default() -> (m: Manifest)
        ensures
            m.name is None,
            m.version is None,
            m.dependencies.size() == 0,
            m.dev_dependencies.size() == 0,
            m.scripts.size() == 0,
            m.extra.size() == 0,
    {
        Manifest {
            name: None,
            version: None,
            dependencies: KeyedMap::new(),
            dev_dependencies: KeyedMap::new(),
            scripts: KeyedMap::new(),
            extra: KeyedMap::new(),
        }
    }
}

impl Manifest {
    /// All runtime + dev dependencies as `(name, version_req)` pairs.
    pub fn all_dependencies(&self) -> (r: Vec<(String, String)>)
        ensures
            r@.len() == self.dependencies.size() + self.dev_dependencies.size(),
            forall|i: int|
                0 <= i < self.dependencies.size() ==> (#[trigger] r@[i]).0@ == self.dependencies.keys()[i]
                    && r@[i].1@ == self.dependencies.values()[i]@,
            forall|j: int|
                0 <= j < self.dev_dependencies.size() ==> (#[trigger] r@[self.dependencies.size() + j]).0@
                    == self.dev_dependencies.keys()[j] && r@[self.dependencies.size() + j].1@
                    == self.dev_dependencies.values()[j]@,
            r@.len() == all_dependencies_view(*self).len(),
            forall|i: int|
                0 <= i < r@.len() ==> (#[trigger] r@[i]).0@ == all_dependencies_view(*self)[i].0
                    && r@[i].1@ == all_dependencies_view(*self)[i].1,
    {
        let mut r = Vec::new();
        append_pairs(&mut r, &self.dependencies);
        let ghost mid = r@;
        append_pairs(&mut r, &self.dev_dependencies);
        let ghost d = self.dependencies.size() as int;
        assert forall|i: int| 0 <= i < r@.len() implies (#[trigger] r@[i]).0@
            == all_dependencies_view(*self)[i].0 && r@[i].1@ == all_dependencies_view(
            *self,
        )[i].1 by {
            if i < d {
                assert(r@[i] == mid[i]);
                assert(mid[0 + i] == mid[i]);
            } else {
                assert(r@[d + (i - d)] == r@[i]);
            }
        }
        r
    }

    /// The command of the script called `name`, if the manifest defines one.
    pub fn script(&self, name: &str) -> (r: Option<String>)
        ensures
            r == self.scripts.lookup(name@),
    {
        match self.scripts.get(name) {
            Some(c) => Some(c.clone()),
            None => None,
        }
    }
}

} // verus!
