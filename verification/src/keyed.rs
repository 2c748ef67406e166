//! `KeyedMap`: a string-keyed map that keeps its entries in ascending key order,
//! the way `BTreeMap<String, V>` does, so that iteration (and everything
//! serialised from it) is deterministic.

use vstd::prelude::*;

use crate::text::{lemma_seq_lt_irreflexive, lemma_seq_lt_total, lemma_seq_lt_transitive, seq_lt};

verus! {

/// The index of the first occurrence of `k` in `keys` at or after `i`, or -1.
pub open spec fn first_index_from(keys: Seq<Seq<char>>, k: Seq<char>, i: int) -> int
    decreases keys.len() - i,
{
    if i < 0 || i >= keys.len() {
        -1
    } else if keys[i] == k {
        i
    } else {
        first_index_from(keys, k, i + 1)
    }
}

/// The index of the first occurrence of `k` in `keys`, or -1.
pub open spec fn first_index(keys: Seq<Seq<char>>, k: Seq<char>) -> int {
    first_index_from(keys, k, 0)
}

/// Keys strictly ascending: sorted and free of duplicates.
pub open spec fn strictly_sorted(keys: Seq<Seq<char>>) -> bool {
    forall|i: int, j: int| 0 <= i < j < keys.len() ==> seq_lt(keys[i], keys[j])
}

proof fn lemma_first_index_from(keys: Seq<Seq<char>>, k: Seq<char>, i: int)
    requires
        0 <= i <= keys.len(),
    ensures
        ({
            let r = first_index_from(keys, k, i);
            &&& r == -1 <==> (forall|j: int| i <= j < keys.len() ==> keys[j] != k)
            &&& r != -1 ==> i <= r < keys.len() && keys[r] == k && (forall|j: int|
                i <= j < r ==> keys[j] != k)
        }),
    decreases keys.len() - i,
{
    if i < keys.len() && keys[i] != k {
        lemma_first_index_from(keys, k, i + 1);
    }
}

/// What `first_index` returns: -1 exactly when `k` is absent, else the first
/// position that holds `k`.
pub proof fn lemma_first_index(keys: Seq<Seq<char>>, k: Seq<char>)
    ensures
        first_index(keys, k) == -1 <==> !keys.contains(k),
        first_index(keys, k) != -1 ==> 0 <= first_index(keys, k) < keys.len() && keys[first_index(
            keys,
            k,
        )] == k && (forall|j: int| 0 <= j < first_index(keys, k) ==> keys[j] != k),
{
    lemma_first_index_from(keys, k, 0);
    if keys.contains(k) {
        let w = choose|w: int| 0 <= w < keys.len() && keys[w] == k;
        assert(keys[w] == k);
    }
}

/// A position holding `k` with no earlier `k` is the first index of `k`.
pub proof fn lemma_first_index_unique(keys: Seq<Seq<char>>, k: Seq<char>, i: int)
    requires
        0 <= i < keys.len(),
        keys[i] == k,
        forall|j: int| 0 <= j < i ==> keys[j] != k,
    ensures
        first_index(keys, k) == i,
{
    lemma_first_index(keys, k);
    let r = first_index(keys, k);
    if r < i {
        assert(keys[r] != k);
    }
    if r > i {
        assert(keys[i] != k);
    }
}

/// In a strictly sorted sequence every position is the first of its key.
pub proof fn lemma_sorted_first_index(keys: Seq<Seq<char>>, i: int)
    requires
        strictly_sorted(keys),
        0 <= i < keys.len(),
    ensures
        first_index(keys, keys[i]) == i,
{
    assert forall|j: int| 0 <= j < i implies keys[j] != keys[i] by {
        lemma_seq_lt_irreflexive(keys[i]);
    }
    lemma_first_index_unique(keys, keys[i], i);
}

/// Two strictly sorted sequences with the same members are equal.
pub proof fn lemma_sorted_same_members(x: Seq<Seq<char>>, y: Seq<Seq<char>>)
    requires
        strictly_sorted(x),
        strictly_sorted(y),
        forall|k: Seq<char>| x.contains(k) <==> y.contains(k),
    ensures
        x == y,
    decreases x.len(),
{
    if x.len() == 0 {
        if y.len() > 0 {
            assert(y.contains(y[0]));
        }
        assert(x =~= y);
    } else {
        assert(x.contains(x[0]));
        let j = choose|j: int| 0 <= j < y.len() && y[j] == x[0];
        assert(y.contains(y[0]));
        let m = choose|m: int| 0 <= m < x.len() && x[m] == y[0];
        if j > 0 {
            assert(seq_lt(y[0], y[j]));
            if m > 0 {
                assert(seq_lt(x[0], x[m]));
                crate::text::lemma_seq_lt_asymmetric(x[0], x[m]);
            } else {
                lemma_seq_lt_irreflexive(x[0]);
            }
        }
        let xt = x.drop_first();
        let yt = y.drop_first();
        assert forall|k: Seq<char>| xt.contains(k) <==> yt.contains(k) by {
            if xt.contains(k) {
                let a = choose|a: int| 0 <= a < xt.len() && xt[a] == k;
                assert(x[a + 1] == k);
                assert(seq_lt(x[0], x[a + 1]));
                lemma_seq_lt_irreflexive(k);
                assert(y.contains(k));
                let b = choose|b: int| 0 <= b < y.len() && y[b] == k;
                assert(b != 0);
                assert(yt[b - 1] == k);
            }
            if yt.contains(k) {
                let a = choose|a: int| 0 <= a < yt.len() && yt[a] == k;
                assert(y[a + 1] == k);
                assert(seq_lt(y[0], y[a + 1]));
                lemma_seq_lt_irreflexive(k);
                assert(x.contains(k));
                let b = choose|b: int| 0 <= b < x.len() && x[b] == k;
                assert(b != 0);
                assert(xt[b - 1] == k);
            }
        }
        lemma_sorted_same_members(xt, yt);
        assert(x =~= seq![x[0]] + xt);
        assert(y =~= seq![y[0]] + yt);
    }
}

/// Ordered storage makes a map's layout a function of its contents: two
/// well-formed maps that agree on every key hold the same entries in the same
/// order, however they were built.
pub proof fn lemma_same_contents_same_layout<V>(a: KeyedMap<V>, b: KeyedMap<V>)
    requires
        a.wf(),
        b.wf(),
        forall|k: Seq<char>| a.lookup(k) == b.lookup(k),
    ensures
        a.keys() == b.keys(),
        a.values() == b.values(),
{
    assert forall|k: Seq<char>| a.keys().contains(k) <==> b.keys().contains(k) by {
        lemma_first_index(a.keys(), k);
        lemma_first_index(b.keys(), k);
        assert(a.lookup(k) == b.lookup(k));
    }
    lemma_sorted_same_members(a.keys(), b.keys());
    assert forall|i: int| 0 <= i < a.values().len() implies a.values()[i] == b.values()[i] by {
        lemma_sorted_first_index(a.keys(), i);
        lemma_sorted_first_index(b.keys(), i);
        assert(a.lookup(a.keys()[i]) == b.lookup(a.keys()[i]));
    }
    assert(a.values() =~= b.values());
}

/// A map from string keys to values, held in ascending key order.
#[derive(Debug)]
pub struct KeyedMap<V> {
    entries: Vec<(String, V)>,
}

impl<V> KeyedMap<V> {
    /// The entries, keys taken by their characters.
    pub closed spec fn pairs(&self) -> Seq<(Seq<char>, V)> {
        self.entries@.map_values(|e: (String, V)| (e.0@, e.1))
    }

    /// The keys, in the order the map holds them.
    pub open spec fn keys(&self) -> Seq<Seq<char>> {
        self.pairs().map_values(|p: (Seq<char>, V)| p.0)
    }

    /// The values, position by position with `keys`.
    pub open spec fn values(&self) -> Seq<V> {
        self.pairs().map_values(|p: (Seq<char>, V)| p.1)
    }

    /// Number of entries.
    pub open spec fn size(&self) -> nat {
        self.pairs().len()
    }

    /// The value stored under `k`, if any.
    pub open spec fn lookup(&self, k: Seq<char>) -> Option<V> {
        let i = first_index(self.keys(), k);
        if i == -1 {
            None
        } else {
            Some(self.values()[i])
        }
    }

    /// The entries are in strictly ascending key order. Every map holds this.
    #[verifier::type_invariant]
    pub open spec fn wf(&self) -> bool {
        strictly_sorted(self.keys())
    }

    /// An empty map.
    pub fn new() -> (m: Self)
        ensures
            m.size() == 0,
            m.wf(),
    {
        KeyedMap { entries: Vec::new() }
    }

    /// Number of entries.
    pub fn len(&self) -> (n: usize)
        ensures
            n == self.size(),
            self.wf(),
    {
        proof {
            use_type_invariant(self);
        }
        self.entries.len()
    }

    /// The key at position `i`.
    pub fn key_at(&self, i: usize) -> (k: &String)
        requires
            i < self.size(),
        ensures
            k@ == self.keys()[i as int],
    {
        &self.entries[i].0
    }

    /// The value at position `i`.
    pub fn value_at(&self, i: usize) -> (v: &V)
        requires
            i < self.size(),
        ensures
            *v == self.values()[i as int],
    {
        &self.entries[i].1
    }

    /// Position of `key`, if present.
    pub fn index_of(&self, key: &str) -> (r: Option<usize>)
        ensures
            match r {
                Some(i) => i == first_index(self.keys(), key@) && i < self.size(),
                None => first_index(self.keys(), key@) == -1,
            },
    {
        let n = self.entries.len();
        let mut i: usize = 0;
        while i < n
            invariant
                n == self.size(),
                i <= n,
                first_index(self.keys(), key@) == first_index_from(self.keys(), key@, i as int),
            decreases n - i,
        {
            if crate::text::str_eq(self.entries[i].0.as_str(), key) {
                return Some(i);
            }
            i = i + 1;
        }
        None
    }

    /// The value stored under `key`, if any.
    pub fn get(&self, key: &str) -> (r: Option<&V>)
        ensures
            match r {
                Some(v) => self.lookup(key@) == Some(*v),
                None => self.lookup(key@) is None,
            },
    {
        match self.index_of(key) {
            Some(i) => Some(&self.entries[i].1),
            None => None,
        }
    }

    /// An entry-by-entry copy, each value cloned.
    pub fn duplicate(&self) -> (r: Self) where V: Clone
        ensures
            r.keys() == self.keys(),
            r.size() == self.size(),
            forall|i: int| 0 <= i < self.size() ==> cloned(self.values()[i], #[trigger] r.values()[i]),
            r.wf(),
    {
        proof {
            use_type_invariant(self);
        }
        let n = self.entries.len();
        let mut entries: Vec<(String, V)> = Vec::new();
        let mut i: usize = 0;
        while i < n
            invariant
                n == self.size(),
                i <= n,
                entries@.len() == i,
                forall|j: int| 0 <= j < i ==> (#[trigger] entries@[j]).0@ == self.keys()[j],
                forall|j: int| 0 <= j < i ==> cloned(self.values()[j], (#[trigger] entries@[j]).1),
            decreases n - i,
        {
            let k = self.entries[i].0.clone();
            let v = self.entries[i].1.clone();
            entries.push((k, v));
            i = i + 1;
        }
        let r = KeyedMap { entries };
        assert(r.keys() =~= self.keys());
        r
    }

    /// Replaces the value at position `i`, keeping its key.
    pub fn set_value(&mut self, i: usize, value: V)
        requires
            i < old(self).size(),
        ensures
            final(self).keys() == old(self).keys(),
            final(self).values() == old(self).values().update(i as int, value),
    {
        proof {
            use_type_invariant(&*self);
        }
        let mut entries = Vec::new();
        std::mem::swap(&mut entries, &mut self.entries);
        let (k, _) = entries.remove(i);
        entries.insert(i, (k, value));
        assert((KeyedMap { entries }).keys() =~= old(self).keys());
        self.entries = entries;
        assert(self.keys() =~= old(self).keys());
        assert(self.values() =~= old(self).values().update(i as int, value));
    }

    /// Inserts `value` under `key`, replacing any value already there and
    /// otherwise placing the new entry before the first larger key.
    pub fn insert(&mut self, key: String, value: V)
        ensures
            forall|k: Seq<char>| #[trigger]
                final(self).lookup(k) == if k == key@ {
                    Some(value)
                } else {
                    old(self).lookup(k)
                },
            final(self).keys().to_set() == old(self).keys().to_set().insert(key@),
            old(self).keys().contains(key@) ==> final(self).keys() == old(self).keys(),
            final(self).wf(),
    {
        proof {
            use_type_invariant(&*self);
        }
        let ghost ok = old(self).keys();
        let ghost ov = old(self).values();
        match self.index_of(key.as_str()) {
            Some(i) => {
                proof {
                    lemma_first_index(ok, key@);
                }
                self.set_value(i, value);
                assert forall|k: Seq<char>| #[trigger]
                    self.lookup(k) == if k == key@ {
                        Some(value)
                    } else {
                        old(self).lookup(k)
                    } by {
                    lemma_first_index(ok, k);
                }
                assert(self.keys().to_set() =~= ok.to_set().insert(key@));
            },
            None => {
                proof {
                    lemma_first_index(ok, key@);
                }
                let n = self.entries.len();
                let mut p: usize = 0;
                while p < n && !crate::text::str_lt(key.as_str(), self.entries[p].0.as_str())
                    invariant
                        n == self.size(),
                        self.keys() == ok,
                        p <= n,
                        forall|q: int| 0 <= q < p ==> !seq_lt(key@, #[trigger] ok[q]),
                    decreases n - p,
                {
                    p = p + 1;
                }
                let ghost nk = ok.insert(p as int, key@);
                proof {
                    assert forall|i: int, j: int| 0 <= i < j < nk.len() implies seq_lt(
                        nk[i],
                        nk[j],
                    ) by {
                        if i < p && j < p {
                            assert(nk[i] == ok[i] && nk[j] == ok[j]);
                        } else if i > p {
                            assert(nk[i] == ok[i - 1] && nk[j] == ok[j - 1]);
                        } else if i < p && j > p {
                            assert(nk[i] == ok[i] && nk[j] == ok[j - 1]);
                        } else if i == p {
                            // the new key sorts before every key after it
                            assert(nk[j] == ok[j - 1]);
                            assert(seq_lt(key@, ok[p as int]));
                            if j - 1 > p {
                                lemma_seq_lt_transitive(key@, ok[p as int], ok[j - 1]);
                            }
                        } else {
                            // j == p: every earlier key sorts before the new key
                            assert(nk[i] == ok[i]);
                            assert(!seq_lt(key@, ok[i]));
                            assert(ok[i] != key@);
                            lemma_seq_lt_total(ok[i], key@);
                        }
                    }
                }
                let mut entries = Vec::new();
                std::mem::swap(&mut entries, &mut self.entries);
                entries.insert(p, (key, value));
                assert((KeyedMap { entries }).keys() =~= nk);
                self.entries = entries;
                assert(self.keys() =~= ok.insert(p as int, key@));
                assert(self.values() =~= ov.insert(p as int, value));
                assert forall|k: Seq<char>| #[trigger]
                    self.lookup(k) == if k == key@ {
                        Some(value)
                    } else {
                        old(self).lookup(k)
                    } by {
                    let nk = self.keys();
                    lemma_first_index(ok, k);
                    if k == key@ {
                        assert forall|j: int| 0 <= j < p implies nk[j] != k by {
                            assert(nk[j] == ok[j]);
                        }
                        lemma_first_index_unique(nk, k, p as int);
                    } else if ok.contains(k) {
                        let i = first_index(ok, k);
                        if i < p {
                            assert forall|j: int| 0 <= j < i implies nk[j] != k by {
                                assert(nk[j] == ok[j]);
                            }
                            lemma_first_index_unique(nk, k, i);
                        } else {
                            assert forall|j: int| 0 <= j < i + 1 implies nk[j] != k by {
                                if j < p {
                                    assert(nk[j] == ok[j]);
                                } else if j > p {
                                    assert(nk[j] == ok[j - 1]);
                                }
                            }
                            assert(nk[i + 1] == ok[i]);
                            lemma_first_index_unique(nk, k, i + 1);
                        }
                    } else {
                        lemma_first_index(nk, k);
                        if nk.contains(k) {
                            let w = choose|w: int| 0 <= w < nk.len() && nk[w] == k;
                            if w < p {
                                assert(ok[w] == k);
                            } else if w > p {
                                assert(ok[w - 1] == k);
                            }
                        }
                    }
                }
                assert(self.keys().to_set() =~= ok.to_set().insert(key@)) by {
                    assert forall|k: Seq<char>|
                        self.keys().to_set().contains(k) == ok.to_set().insert(key@).contains(
                            k,
                        ) by {
                        let nk = self.keys();
                        if nk.contains(k) {
                            let w = choose|w: int| 0 <= w < nk.len() && nk[w] == k;
                            if w < p {
                                assert(ok[w] == k);
                            } else if w > p {
                                assert(ok[w - 1] == k);
                            }
                        }
                        if ok.contains(k) {
                            let w = choose|w: int| 0 <= w < ok.len() && ok[w] == k;
                            if w < p {
                                assert(nk[w] == k);
                            } else {
                                assert(nk[w + 1] == k);
                            }
                        }
                        if k == key@ {
                            assert(nk[p as int] == k);
                        }
                    }
                }
            },
        }
    }
}

impl<V: Clone> Clone for KeyedMap<V> {
    /// Same keys in the same order, each value cloned.
    fn clone(&self) -> (r: Self)
        ensures
            r.keys() == self.keys(),
            r.size() == self.size(),
            forall|i: int| 0 <= i < self.size() ==> cloned(self.values()[i], #[trigger] r.values()[i]),
    {
        self.duplicate()
    }
}

} // verus!
