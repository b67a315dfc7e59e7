//! Insertion-ordered association map with unique keys.
//!
//! The ownership pass keys its tables by small `Copy` handles and walks
//! them in a deterministic order; this map keeps its entries in insertion
//! order and exposes them both as a `Map` and as the ordered entry
//! sequence.
use vstd::prelude::*;

verus! {

/// Keys whose executable equality is spec equality.
pub trait MapKey: Copy + Sized {
    fn key_eq(&self, other: &Self) -> (r: bool)
        ensures
            r == (*self == *other),
    ;
}

/// The map denoted by a sequence of entries (a later entry for the same
/// key wins).
pub open spec fn entries_map<K, V>(s: Seq<(K, V)>) -> Map<K, V>
    decreases s.len(),
{
    if s.len() == 0 {
        Map::empty()
    } else {
        entries_map(s.drop_last()).insert(s.last().0, s.last().1)
    }
}

/// No key occurs twice in `s`.
pub open spec fn keys_unique<K, V>(s: Seq<(K, V)>) -> bool {
    forall|i: int, j: int|
        0 <= i < s.len() && 0 <= j < s.len() && i != j ==> #[trigger] s[i].0 != #[trigger] s[j].0
}

/// Position of key `k` in `s`, if present.
pub open spec fn has_key_at<K, V>(s: Seq<(K, V)>, k: K, i: int) -> bool {
    0 <= i < s.len() && s[i].0 == k
}

pub proof fn lemma_entries_map_dom<K, V>(s: Seq<(K, V)>, k: K)
    ensures
        entries_map(s).contains_key(k) <==> exists|i: int| has_key_at(s, k, i),
    decreases s.len(),
{
    if s.len() > 0 {
        lemma_entries_map_dom(s.drop_last(), k);
        if entries_map(s).contains_key(k) {
            if s.last().0 == k {
                assert(has_key_at(s, k, s.len() - 1));
            } else {
                let i = choose|i: int| has_key_at(s.drop_last(), k, i);
                assert(has_key_at(s, k, i));
            }
        }
        if exists|i: int| has_key_at(s, k, i) {
            let i = choose|i: int| has_key_at(s, k, i);
            if i < s.len() - 1 {
                assert(has_key_at(s.drop_last(), k, i));
            }
        }
    }
}

pub proof fn lemma_entries_map_value<K, V>(s: Seq<(K, V)>, i: int)
    requires
        keys_unique(s),
        0 <= i < s.len(),
    ensures
        entries_map(s).contains_key(s[i].0),
        entries_map(s)[s[i].0] == s[i].1,
    decreases s.len(),
{
    if i < s.len() - 1 {
        let d = s.drop_last();
        assert(keys_unique(d)) by {
            assert forall|a: int, b: int|
                0 <= a < d.len() && 0 <= b < d.len() && a != b implies #[trigger] d[a].0
                != #[trigger] d[b].0 by {
                assert(d[a] == s[a] && d[b] == s[b]);
            }
        }
        lemma_entries_map_value(d, i);
        assert(s[i].0 != s[s.len() - 1].0);
    }
}

#[derive(Debug)]
pub struct VecMap<K, V> {
    entries: Vec<(K, V)>,
}

impl<K, V> View for VecMap<K, V> {
    type V = Map<K, V>;

    closed spec fn view(&self) -> Map<K, V> {
        entries_map(self.entries@)
    }
}

impl<K: MapKey, V> VecMap<K, V> {
    /// The entries in insertion order.
    pub closed spec fn seq(&self) -> Seq<(K, V)> {
        self.entries@
    }

    pub closed spec fn wf(&self) -> bool {
        keys_unique(self.entries@)
    }

    pub proof fn lemma_view(&self)
        requires
            self.wf(),
        ensures
            keys_unique(self.seq()),
            self@ == entries_map(self.seq()),
            forall|k: K| #[trigger]
                self@.contains_key(k) <==> exists|i: int| has_key_at(self.seq(), k, i),
            forall|i: int|
                0 <= i < self.seq().len() ==> #[trigger] self@[self.seq()[i].0]
                    == self.seq()[i].1 && self@.contains_key(self.seq()[i].0),
            self@.dom().finite(),
    {
        assert forall|k: K| #[trigger]
            self@.contains_key(k) <==> exists|i: int| has_key_at(self.seq(), k, i) by {
            lemma_entries_map_dom(self.seq(), k);
        }
        assert forall|i: int| 0 <= i < self.seq().len() implies #[trigger] self@[self.seq()[
            i
        ].0] == self.seq()[i].1 && self@.contains_key(self.seq()[i].0) by {
            lemma_entries_map_value(self.seq(), i);
        }
        lemma_entries_map_finite(self.seq());
    }

    pub fn new() -> (m: Self)
        ensures
            m.wf(),
            m@ == Map::<K, V>::empty(),
            m.seq() == Seq::<(K, V)>::empty(),
    {
        VecMap { entries: Vec::new() }
    }

    pub fn len(&self) -> (n: usize)
        ensures
            n == self.seq().len(),
    {
        self.entries.len()
    }

    /// The key and value of the `i`-th entry.
    pub fn entry(&self, i: usize) -> (r: (&K, &V))
        requires
            i < self.seq().len(),
        ensures
            *r.0 == self.seq()[i as int].0,
            *r.1 == self.seq()[i as int].1,
    {
        let e = &self.entries[i];
        (&e.0, &e.1)
    }

    /// Position of `k` among the entries.
    pub fn index_of(&self, k: &K) -> (r: Option<usize>)
        requires
            self.wf(),
        ensures
            match r {
                Some(i) => has_key_at(self.seq(), *k, i as int),
                None => !self@.contains_key(*k),
            },
    {
        proof {
            self.lemma_view();
        }
        let mut i: usize = 0;
        while i < self.entries.len()
            invariant
                i <= self.entries@.len(),
                forall|j: int| 0 <= j < i ==> self.entries@[j].0 != *k,
            decreases self.entries@.len() - i,
        {
            if self.entries[i].0.key_eq(k) {
                return Some(i);
            }
            i = i + 1;
        }
        proof {
            if self@.contains_key(*k) {
                let j = choose|j: int| has_key_at(self.seq(), *k, j);
                assert(self.entries@[j].0 != *k);
            }
        }
        None
    }

    pub fn contains_key(&self, k: &K) -> (r: bool)
        requires
            self.wf(),
        ensures
            r == self@.contains_key(*k),
    {
        proof {
            self.lemma_view();
        }
        match self.index_of(k) {
            Some(i) => true,
            None => false,
        }
    }

    pub fn get(&self, k: &K) -> (r: Option<&V>)
        requires
            self.wf(),
        ensures
            match r {
                Some(v) => self@.contains_key(*k) && *v == self@[*k],
                None => !self@.contains_key(*k),
            },
    {
        proof {
            self.lemma_view();
        }
        match self.index_of(k) {
            Some(i) => Some(&self.entries[i].1),
            None => None,
        }
    }

    /// Insert or overwrite. An existing key keeps its position; a new key
    /// goes last.
    pub fn insert(&mut self, k: K, v: V)
        requires
            old(self).wf(),
        ensures
            final(self).wf(),
            final(self)@ == old(self)@.insert(k, v),
            old(self)@.contains_key(k) ==> final(self).seq().len() == old(self).seq().len(),
            old(self)@.contains_key(k) ==> exists|i: int|
                has_key_at(old(self).seq(), k, i) && final(self).seq() == old(self).seq().update(i, (k, v)),
            !old(self)@.contains_key(k) ==> final(self).seq() == old(self).seq().push((k, v)),
    {
        proof {
            self.lemma_view();
        }
        match self.index_of(&k) {
            Some(i) => {
                let ghost s0 = self.entries@;
                self.entries.set(i, (k, v));
                let ghost s1 = self.entries@;
                assert(s1 == s0.update(i as int, (k, v)));
                assert(keys_unique(s1)) by {
                    assert forall|a: int, b: int|
                        0 <= a < s1.len() && 0 <= b < s1.len() && a != b implies #[trigger] s1[a].0
                        != #[trigger] s1[b].0 by {
                        assert(s0[a].0 != s0[b].0);
                    }
                }
                proof {
                    self.lemma_view();
                    assert forall|q: K| #[trigger]
                        self@.contains_key(q) <==> old(self)@.insert(k, v).contains_key(q) by {
                        if old(self)@.contains_key(q) {
                            let j = choose|j: int| has_key_at(s0, q, j);
                            assert(has_key_at(s1, q, j) || q == k);
                        }
                        if self@.contains_key(q) {
                            let j = choose|j: int| has_key_at(s1, q, j);
                            if j != i {
                                assert(has_key_at(s0, q, j));
                            }
                        }
                    }
                    assert forall|q: K| #[trigger] self@.contains_key(q) implies self@[q] == old(
                        self,
                    )@.insert(k, v)[q] by {
                        let j = choose|j: int| has_key_at(s1, q, j);
                        if j != i {
                            assert(has_key_at(s0, q, j));
                            assert(s0[j] == s1[j]);
                        }
                    }
                    assert(self@ =~= old(self)@.insert(k, v));
                }
            },
            None => {
                let ghost s0 = self.entries@;
                self.entries.push((k, v));
                assert(self.entries@.drop_last() =~= s0);
                assert(keys_unique(self.entries@)) by {
                    let s1 = self.entries@;
                    assert forall|a: int, b: int|
                        0 <= a < s1.len() && 0 <= b < s1.len() && a != b implies #[trigger] s1[a].0
                        != #[trigger] s1[b].0 by {
                        if a < s0.len() && b < s0.len() {
                            assert(s0[a] == s1[a] && s0[b] == s1[b]);
                        } else if a == s0.len() {
                            assert(s1[b] == s0[b]);
                            assert(!has_key_at(s0, k, b));
                        } else {
                            assert(s1[a] == s0[a]);
                            assert(!has_key_at(s0, k, a));
                        }
                    }
                }
            },
        }
    }

    /// Remove `k` if present, returning its value; the other entries keep
    /// their order.
    pub fn remove(&mut self, k: &K) -> (r: Option<V>)
        requires
            old(self).wf(),
        ensures
            final(self).wf(),
            final(self)@ == old(self)@.remove(*k),
            r == (if old(self)@.contains_key(*k) {
                Some(old(self)@[*k])
            } else {
                None
            }),
    {
        proof {
            self.lemma_view();
        }
        match self.index_of(k) {
            Some(i) => {
                let ghost s0 = self.entries@;
                let removed = self.entries.remove(i);
                proof {
                    lemma_entries_map_value(s0, i as int);
                }
                let ghost s1 = self.entries@;
                assert(s1 =~= s0.remove(i as int));
                assert(keys_unique(s1)) by {
                    assert forall|a: int, b: int|
                        0 <= a < s1.len() && 0 <= b < s1.len() && a != b implies #[trigger] s1[a].0
                        != #[trigger] s1[b].0 by {
                        let a0 = if a < i {
                            a
                        } else {
                            a + 1
                        };
                        let b0 = if b < i {
                            b
                        } else {
                            b + 1
                        };
                        assert(s1[a] == s0[a0] && s1[b] == s0[b0]);
                    }
                }
                proof {
                    self.lemma_view();
                    assert forall|q: K| #[trigger]
                        self@.contains_key(q) <==> old(self)@.remove(*k).contains_key(q) by {
                        if self@.contains_key(q) {
                            let j = choose|j: int| has_key_at(s1, q, j);
                            let j0 = if j < i {
                                j
                            } else {
                                j + 1
                            };
                            assert(has_key_at(s0, q, j0));
                            assert(s0[j0].0 != s0[i as int].0);
                        }
                        if old(self)@.remove(*k).contains_key(q) {
                            let j = choose|j: int| has_key_at(s0, q, j);
                            assert(j != i);
                            let j1 = if j < i {
                                j
                            } else {
                                j - 1
                            };
                            assert(has_key_at(s1, q, j1));
                        }
                    }
                    assert forall|q: K| #[trigger] self@.contains_key(q) implies self@[q] == old(
                        self,
                    )@.remove(*k)[q] by {
                        let j = choose|j: int| has_key_at(s1, q, j);
                        let j0 = if j < i {
                            j
                        } else {
                            j + 1
                        };
                        assert(s1[j] == s0[j0]);
                        assert(has_key_at(s0, q, j0));
                    }
                    assert(self@ =~= old(self)@.remove(*k));
                }
                Some(removed.1)
            },
            None => {
                assert(self@ =~= old(self)@.remove(*k));
                None
            },
        }
    }

    /// Insert every entry of `other`, in its order; entries of `other`
    /// win over entries of `self` with the same key.
    pub fn absorb(&mut self, other: VecMap<K, V>)
        requires
            old(self).wf(),
        ensures
            final(self).wf(),
            final(self)@ == old(self)@.union_prefer_right(other@),
    {
        let ghost m0 = self@;
        let ghost s = other.entries@;
        let ghost n = s.len();
        let mut other = other;
        assert(s.take(0) =~= Seq::<(K, V)>::empty());
        assert(m0.union_prefer_right(entries_map(s.take(0))) =~= m0);
        assert(other.entries@ =~= s.subrange(0, n as int));
        while other.entries.len() > 0
            invariant
                self.wf(),
                n == s.len(),
                other.entries@.len() <= n,
                other.entries@ == s.subrange(n - other.entries@.len(), n as int),
                self@ == m0.union_prefer_right(entries_map(s.take(n - other.entries@.len()))),
            decreases other.entries@.len(),
        {
            let ghost m: int = n - other.entries@.len();
            let ghost rest = other.entries@;
            assert(0 <= m < n);
            assert(rest[0] == s[m]);
            let e = other.entries.remove(0);
            assert(e == s[m]);
            self.insert(e.0, e.1);
            assert(s.take(m + 1).drop_last() =~= s.take(m));
            assert(s.take(m + 1).last() == e);
            assert(entries_map(s.take(m + 1)) == entries_map(s.take(m)).insert(e.0, e.1));
            assert(self@ =~= m0.union_prefer_right(entries_map(s.take(m + 1))));
            assert(other.entries@ =~= rest.remove(0));
            assert(other.entries@ =~= s.subrange(m + 1, n as int));
        }
        assert(s.take(n as int) =~= s);
    }

    /// Drop every entry (the map becomes empty).
    pub fn clear(&mut self)
        ensures
            final(self).wf(),
            final(self)@ == Map::<K, V>::empty(),
            final(self).seq() == Seq::<(K, V)>::empty(),
    {
        self.entries = Vec::new();
    }
}

pub proof fn lemma_entries_map_finite<K, V>(s: Seq<(K, V)>)
    ensures
        entries_map(s).dom().finite(),
    decreases s.len(),
{
    if s.len() > 0 {
        lemma_entries_map_finite(s.drop_last());
    }
}

impl<K: MapKey, V: Copy> VecMap<K, V> {
    /// An entry-for-entry copy.
    pub fn copy(&self) -> (r: Self)
        ensures
            r.seq() == self.seq(),
            r@ == self@,
            r.wf() == self.wf(),
    {
        let mut entries: Vec<(K, V)> = Vec::new();
        let mut i: usize = 0;
        while i < self.entries.len()
            invariant
                i <= self.entries@.len(),
                entries@ == self.entries@.take(i as int),
            decreases self.entries@.len() - i,
        {
            let e = self.entries[i];
            entries.push(e);
            assert(entries@ =~= self.entries@.take(i + 1));
            i = i + 1;
        }
        assert(entries@ =~= self.entries@);
        VecMap { entries }
    }

    /// Keep exactly the entries whose position satisfies `keep`.
    pub fn retain_positions(&mut self, keep: Vec<bool>)
        requires
            old(self).wf(),
            keep@.len() == old(self).seq().len(),
        ensures
            final(self).wf(),
            forall|q: K|
                #![trigger final(self)@.contains_key(q)]
                final(self)@.contains_key(q) <==> (exists|i: int|
                    has_key_at(old(self).seq(), q, i) && keep@[i]),
            forall|q: K| #[trigger]
                final(self)@.contains_key(q) ==> old(self)@.contains_key(q) && final(self)@[q]
                    == old(self)@[q],
    {
        let ghost s0 = self.entries@;
        let ghost m0 = self@;
        proof {
            self.lemma_view();
        }
        let mut out: VecMap<K, V> = VecMap::new();
        let mut i: usize = 0;
        while i < self.entries.len()
            invariant
                i <= s0.len(),
                self.entries@ == s0,
                m0 == entries_map(s0),
                keep@.len() == s0.len(),
                keys_unique(s0),
                out.wf(),
                forall|q: K|
                    #![trigger out@.contains_key(q)]
                    out@.contains_key(q) <==> (exists|j: int|
                        0 <= j < i && has_key_at(s0, q, j) && keep@[j]),
                forall|q: K| #[trigger]
                    out@.contains_key(q) ==> m0.contains_key(q) && out@[q] == m0[q],
            decreases s0.len() - i,
        {
            let ghost o0 = out@;
            if keep[i] {
                let e = self.entries[i];
                proof {
                    lemma_entries_map_value(s0, i as int);
                }
                out.insert(e.0, e.1);
            }
            proof {
                assert forall|q: K|
                    #![trigger out@.contains_key(q)]
                    out@.contains_key(q) <==> (exists|j: int|
                        0 <= j < i + 1 && has_key_at(s0, q, j) && keep@[j]) by {
                    if exists|j: int| 0 <= j < i + 1 && has_key_at(s0, q, j) && keep@[j] {
                        let j = choose|j: int| 0 <= j < i + 1 && has_key_at(s0, q, j) && keep@[j];
                        if j < i {
                            assert(o0.contains_key(q));
                        }
                    }
                    if out@.contains_key(q) && !(q == s0[i as int].0 && keep@[i as int]) {
                        assert(o0.contains_key(q));
                        let j = choose|j: int| 0 <= j < i && has_key_at(s0, q, j) && keep@[j];
                        assert(0 <= j < i + 1 && has_key_at(s0, q, j) && keep@[j]);
                    }
                    if out@.contains_key(q) && q == s0[i as int].0 && keep@[i as int] {
                        assert(has_key_at(s0, q, i as int));
                    }
                }
            }
            i = i + 1;
        }
        *self = out;
    }
}

} // verus!
