//! Association lists: small maps kept as a vector of unique-keyed entries.
//!
//! The controller's registries are small (a handful of agents, links and
//! peers), so a vector scan is all the lookup they need. Every registry in the
//! library stores its state in an `AssocMap` and speaks of it through the
//! mathematical map `map()`.

use vstd::prelude::*;

verus! {

/// A key whose equality and duplication are decided on its view.
pub trait KeyView: View + Sized {
    fn key_eq(&self, other: &Self) -> (r: bool)
        ensures
            r == (self@ == other@),
    ;

    fn key_clone(&self) -> (r: Self)
        ensures
            r@ == self@,
    ;
}

impl KeyView for String {
    fn key_eq(&self, other: &Self) -> (r: bool) {
        *self == *other
    }

    fn key_clone(&self) -> (r: Self) {
        self.clone()
    }
}

/// A map from keys to values, stored as a vector of entries with unique keys.
pub struct AssocMap<K, V> {
    entries: Vec<(K, V)>,
}

impl<K: KeyView, V> AssocMap<K, V> {
    /// The entries in storage order.
    pub closed spec fn seq(&self) -> Seq<(K, V)> {
        self.entries@
    }

    pub open spec fn key_at(&self, i: int) -> K::V {
        self.seq()[i].0@
    }

    /// No key occurs twice.
    pub open spec fn wf(&self) -> bool {
        forall|i: int, j: int|
            0 <= i < self.seq().len() && 0 <= j < self.seq().len() && i != j ==> #[trigger] self.key_at(
                i,
            ) != #[trigger] self.key_at(j)
    }

    pub open spec fn has_key(&self, k: K::V) -> bool {
        exists|i: int| 0 <= i < self.seq().len() && #[trigger] self.key_at(i) == k
    }

    pub open spec fn index_of(&self, k: K::V) -> int {
        choose|i: int| 0 <= i < self.seq().len() && #[trigger] self.key_at(i) == k
    }

    /// The map that the entries describe.
    pub open spec fn map(&self) -> Map<K::V, V> {
        Map::new(|k: K::V| self.has_key(k), |k: K::V| self.seq()[self.index_of(k)].1)
    }

    pub proof fn lemma_index_of(&self, i: int)
        requires
            self.wf(),
            0 <= i < self.seq().len(),
        ensures
            self.has_key(self.key_at(i)),
            self.index_of(self.key_at(i)) == i,
            self.map().contains_key(self.key_at(i)),
            self.map()[self.key_at(i)] == self.seq()[i].1,
    {
        assert(self.has_key(self.key_at(i)));
        let j = self.index_of(self.key_at(i));
        assert(self.key_at(j) == self.key_at(i));
    }

    pub proof fn lemma_map_domain(&self)
        requires
            self.wf(),
        ensures
            forall|k: K::V| #[trigger]
                self.map().contains_key(k) ==> 0 <= self.index_of(k) < self.seq().len()
                    && self.key_at(self.index_of(k)) == k && self.map()[k] == self.seq()[self.index_of(
                    k,
                )].1,
    {
    }

    pub fn new() -> (r: Self)
        ensures
            r.wf(),
            r.seq().len() == 0,
            r.map() == Map::<K::V, V>::empty(),
    {
        let r = AssocMap { entries: Vec::new() };
        assert(r.map() =~= Map::<K::V, V>::empty());
        r
    }

    pub fn len(&self) -> (r: usize)
        ensures
            r == self.seq().len(),
    {
        self.entries.len()
    }

    /// The entry at position `i`.
    pub fn entry(&self, i: usize) -> (r: &(K, V))
        requires
            i < self.seq().len(),
        ensures
            *r == self.seq()[i as int],
    {
        &self.entries[i]
    }

    /// Position of the entry with key `k`, if there is one.
    pub fn find(&self, k: &K) -> (r: Option<usize>)
        requires
            self.wf(),
        ensures
            match r {
                Some(i) => i < self.seq().len() && self.key_at(i as int) == k@ && self.index_of(k@)
                    == i,
                None => !self.has_key(k@) && !self.map().contains_key(k@),
            },
    {
        let mut i: usize = 0;
        while i < self.entries.len()
            invariant
                i <= self.seq().len(),
                self.wf(),
                self.seq() == self.entries@,
                forall|j: int| 0 <= j < i ==> #[trigger] self.key_at(j) != k@,
            decreases self.seq().len() - i,
        {
            if self.entries[i].0.key_eq(k) {
                proof {
                    self.lemma_index_of(i as int);
                }
                return Some(i);
            }
            i = i + 1;
        }
        None
    }

    /// The value stored under `k`, if any.
    pub fn get(&self, k: &K) -> (r: Option<&V>)
        requires
            self.wf(),
        ensures
            r is Some <==> self.map().contains_key(k@),
            r is Some ==> *r.unwrap() == self.map()[k@],
    {
        match self.find(k) {
            Some(i) => {
                proof {
                    self.lemma_index_of(i as int);
                }
                Some(&self.entries[i].1)
            },
            None => None,
        }
    }

    pub fn contains(&self, k: &K) -> (r: bool)
        requires
            self.wf(),
        ensures
            r == self.map().contains_key(k@),
    {
        self.find(k).is_some()
    }

    /// Store `v` under `k`, replacing any earlier value; a new key goes last.
    pub fn insert(&mut self, k: K, v: V)
        requires
            old(self).wf(),
        ensures
            final(self).wf(),
            final(self).map() == old(self).map().insert(k@, v),
            old(self).has_key(k@) ==> final(self).seq() == old(self).seq().update(
                old(self).index_of(k@),
                (k, v),
            ),
            !old(self).has_key(k@) ==> final(self).seq() == old(self).seq().push((k, v)),
    {
        let ghost k_view = k@;
        match self.find(&k) {
            Some(i) => {
                self.entries.set(i, (k, v));
                proof {
                    assert(self.seq() == old(self).seq().update(i as int, (k, v)));
                    assert forall|a: int, b: int|
                        0 <= a < self.seq().len() && 0 <= b < self.seq().len() && a != b implies #[trigger] self.key_at(
                        a,
                    ) != #[trigger] self.key_at(b) by {
                        assert(old(self).key_at(a) != old(self).key_at(b));
                    }
                    self.lemma_insert_view_replace(*old(self), i as int, k_view, v);
                }
            },
            None => {
                self.entries.push((k, v));
                proof {
                    assert(self.seq() == old(self).seq().push((k, v)));
                    assert forall|a: int, b: int|
                        0 <= a < self.seq().len() && 0 <= b < self.seq().len() && a != b implies #[trigger] self.key_at(
                        a,
                    ) != #[trigger] self.key_at(b) by {
                        if a < old(self).seq().len() && b < old(self).seq().len() {
                            assert(old(self).key_at(a) != old(self).key_at(b));
                        } else if a < old(self).seq().len() {
                            assert(old(self).key_at(a) == self.key_at(a));
                        } else {
                            assert(old(self).key_at(b) == self.key_at(b));
                        }
                    }
                    self.lemma_insert_view_push(*old(self), k_view, v);
                }
            },
        }
    }

    proof fn lemma_insert_view_replace(&self, old_map: Self, i: int, k: K::V, v: V)
        requires
            old_map.wf(),
            self.wf(),
            0 <= i < old_map.seq().len(),
            old_map.key_at(i) == k,
            self.seq().len() == old_map.seq().len(),
            self.seq()[i].1 == v,
            forall|j: int| 0 <= j < self.seq().len() ==> #[trigger] self.key_at(j) == old_map.key_at(j),
            forall|j: int| 0 <= j < self.seq().len() && j != i ==> self.seq()[j] == old_map.seq()[j],
        ensures
            self.map() == old_map.map().insert(k, v),
    {
        assert forall|kk: K::V| self.has_key(kk) <==> old_map.has_key(kk) by {
            if self.has_key(kk) {
                let j = choose|j: int| 0 <= j < self.seq().len() && #[trigger] self.key_at(j) == kk;
                assert(old_map.key_at(j) == kk);
            }
            if old_map.has_key(kk) {
                let j = choose|j: int| 0 <= j < old_map.seq().len() && #[trigger] old_map.key_at(j) == kk;
                assert(self.key_at(j) == kk);
            }
        }
        assert forall|kk: K::V| #[trigger] self.map().contains_key(kk) implies self.map()[kk] == old_map.map().insert(
            k,
            v,
        )[kk] by {
            let j = self.index_of(kk);
            self.lemma_index_of(j);
            old_map.lemma_index_of(j);
            if kk == k {
                old_map.lemma_index_of(i);
            }
        }
        assert(self.map() =~= old_map.map().insert(k, v));
    }

    proof fn lemma_insert_view_push(&self, old_map: Self, k: K::V, v: V)
        requires
            old_map.wf(),
            self.wf(),
            !old_map.has_key(k),
            self.seq().len() == old_map.seq().len() + 1,
            self.key_at(old_map.seq().len() as int) == k,
            self.seq()[old_map.seq().len() as int].1 == v,
            forall|j: int| 0 <= j < old_map.seq().len() ==> self.seq()[j] == old_map.seq()[j],
        ensures
            self.map() == old_map.map().insert(k, v),
    {
        assert forall|kk: K::V| self.has_key(kk) <==> (old_map.has_key(kk) || kk == k) by {
            if self.has_key(kk) {
                let j = choose|j: int| 0 <= j < self.seq().len() && #[trigger] self.key_at(j) == kk;
                if j < old_map.seq().len() {
                    assert(old_map.key_at(j) == kk);
                }
            }
            if old_map.has_key(kk) {
                let j = choose|j: int| 0 <= j < old_map.seq().len() && #[trigger] old_map.key_at(j) == kk;
                assert(self.key_at(j) == kk);
            }
            if kk == k {
                assert(self.key_at(old_map.seq().len() as int) == kk);
            }
        }
        assert forall|kk: K::V| #[trigger] self.map().contains_key(kk) implies self.map()[kk] == old_map.map().insert(
            k,
            v,
        )[kk] by {
            let j = self.index_of(kk);
            self.lemma_index_of(j);
            if j < old_map.seq().len() {
                old_map.lemma_index_of(j);
            }
        }
        assert(self.map() =~= old_map.map().insert(k, v));
    }

    /// Replace the value at position `i`, keeping its key; returns the old value.
    pub fn replace_at(&mut self, i: usize, v: V) -> (r: V)
        requires
            old(self).wf(),
            i < old(self).seq().len(),
        ensures
            final(self).wf(),
            r == old(self).seq()[i as int].1,
            final(self).seq() == old(self).seq().update(i as int, (old(self).seq()[i as int].0, v)),
            final(self).map() == old(self).map().insert(old(self).key_at(i as int), v),
    {
        let (k, old_v) = self.entries.remove(i);
        self.entries.insert(i, (k, v));
        proof {
            assert(self.seq() =~= old(self).seq().update(i as int, (old(self).seq()[i as int].0, v)));
            assert forall|a: int, b: int|
                0 <= a < self.seq().len() && 0 <= b < self.seq().len() && a != b implies #[trigger] self.key_at(
                a,
            ) != #[trigger] self.key_at(b) by {
                assert(old(self).key_at(a) != old(self).key_at(b));
            }
            self.lemma_insert_view_replace(*old(self), i as int, old(self).key_at(i as int), v);
        }
        old_v
    }

    /// Remove the entry under `k`; returns its value if there was one.
    pub fn remove(&mut self, k: &K) -> (r: Option<V>)
        requires
            old(self).wf(),
        ensures
            final(self).wf(),
            final(self).map() == old(self).map().remove(k@),
            r is Some <==> old(self).map().contains_key(k@),
            r is Some ==> r.unwrap() == old(self).map()[k@],
            old(self).has_key(k@) ==> final(self).seq() == old(self).seq().remove(
                old(self).index_of(k@),
            ),
            !old(self).has_key(k@) ==> final(self).seq() == old(self).seq(),
    {
        match self.find(k) {
            Some(i) => {
                proof {
                    old(self).lemma_index_of(i as int);
                }
                let (_k, v) = self.entries.remove(i);
                proof {
                    self.lemma_remove_view(*old(self), i as int);
                }
                Some(v)
            },
            None => {
                assert(self.map() =~= old(self).map().remove(k@));
                None
            },
        }
    }

    proof fn lemma_remove_view(&self, old_map: Self, i: int)
        requires
            old_map.wf(),
            0 <= i < old_map.seq().len(),
            self.seq() == old_map.seq().remove(i),
        ensures
            self.wf(),
            self.map() == old_map.map().remove(old_map.key_at(i)),
    {
        let k = old_map.key_at(i);
        assert forall|a: int, b: int|
            0 <= a < self.seq().len() && 0 <= b < self.seq().len() && a != b implies #[trigger] self.key_at(
            a,
        ) != #[trigger] self.key_at(b) by {
            let oa = if a < i {
                a
            } else {
                a + 1
            };
            let ob = if b < i {
                b
            } else {
                b + 1
            };
            assert(self.key_at(a) == old_map.key_at(oa));
            assert(self.key_at(b) == old_map.key_at(ob));
        }
        assert forall|kk: K::V| self.has_key(kk) <==> (old_map.has_key(kk) && kk != k) by {
            if self.has_key(kk) {
                let j = choose|j: int| 0 <= j < self.seq().len() && #[trigger] self.key_at(j) == kk;
                let oj = if j < i {
                    j
                } else {
                    j + 1
                };
                assert(old_map.key_at(oj) == kk);
            }
            if old_map.has_key(kk) && kk != k {
                let j = choose|j: int| 0 <= j < old_map.seq().len() && #[trigger] old_map.key_at(j) == kk;
                if j < i {
                    assert(self.key_at(j) == kk);
                } else {
                    assert(j != i);
                    assert(self.key_at(j - 1) == kk);
                }
            }
        }
        assert forall|kk: K::V| #[trigger] self.map().contains_key(kk) implies self.map()[kk] == old_map.map().remove(
            k,
        )[kk] by {
            let j = self.index_of(kk);
            self.lemma_index_of(j);
            let oj = if j < i {
                j
            } else {
                j + 1
            };
            assert(old_map.key_at(oj) == kk);
            old_map.lemma_index_of(oj);
        }
        assert(self.map() =~= old_map.map().remove(k));
    }

    /// Keep exactly the entries whose position is marked in `keep`.
    pub fn retain_mask(&mut self, keep: &Vec<bool>)
        requires
            old(self).wf(),
            keep@.len() == old(self).seq().len(),
        ensures
            final(self).wf(),
            forall|k: K::V|
                #[trigger] final(self).map().contains_key(k) <==> (old(self).map().contains_key(k)
                    && keep@[old(self).index_of(k)]),
            forall|k: K::V| #[trigger]
                final(self).map().contains_key(k) ==> final(self).map()[k] == old(self).map()[k],
    {
        let ghost orig = *old(self);
        let mut rest: Vec<(K, V)> = Vec::new();
        std::mem::swap(&mut self.entries, &mut rest);
        let ghost old_seq = rest@;
        assert(old_seq == orig.seq());
        let mut taken: usize = 0;
        let mut kept: Vec<(K, V)> = Vec::new();
        let ghost mut kept_idx: Seq<int> = Seq::empty();
        let n = rest.len();
        // Walk the old entries front to back, moving the kept ones over.
        while taken < n
            invariant
                n == old_seq.len(),
                keep@.len() == n,
                taken <= n,
                rest@ == old_seq.subrange(taken as int, n as int),
                kept@.len() == kept_idx.len(),
                forall|a: int| 0 <= a < kept_idx.len() ==> 0 <= #[trigger] kept_idx[a] < taken,
                forall|a: int, b: int| 0 <= a < b < kept_idx.len() ==> #[trigger] kept_idx[a] < #[trigger] kept_idx[b],
                forall|a: int| 0 <= a < kept_idx.len() ==> #[trigger] kept@[a] == old_seq[kept_idx[a]],
                forall|a: int| 0 <= a < kept_idx.len() ==> keep@[#[trigger] kept_idx[a]],
                forall|j: int| 0 <= j < taken && keep@[j] ==> exists|a: int| 0 <= a < kept_idx.len() && #[trigger] kept_idx[a] == j,
            decreases n - taken,
        {
            let e = rest.remove(0);
            let ghost prev_idx = kept_idx;
            if keep[taken] {
                kept.push(e);
                proof {
                    kept_idx = kept_idx.push(taken as int);
                }
            }
            proof {
                assert forall|j: int| 0 <= j < taken + 1 && keep@[j] implies exists|a: int| 0 <= a < kept_idx.len() && #[trigger] kept_idx[a] == j by {
                    if j == taken {
                        assert(kept_idx[kept_idx.len() - 1] == j);
                    } else {
                        let a = choose|a: int| 0 <= a < prev_idx.len() && #[trigger] prev_idx[a] == j;
                        assert(kept_idx[a] == prev_idx[a]);
                    }
                }
            }
            taken = taken + 1;
        }
        self.entries = kept;
        proof {
            assert(self.seq() == kept@);
            assert forall|a: int, b: int|
                0 <= a < self.seq().len() && 0 <= b < self.seq().len() && a != b implies #[trigger] self.key_at(
                a,
            ) != #[trigger] self.key_at(b) by {
                assert(self.key_at(a) == orig.key_at(kept_idx[a]));
                assert(self.key_at(b) == orig.key_at(kept_idx[b]));
                if a < b {
                    assert(kept_idx[a] < kept_idx[b]);
                } else {
                    assert(kept_idx[b] < kept_idx[a]);
                }
            }
            assert forall|k: K::V|
                #[trigger] self.map().contains_key(k) <==> (orig.map().contains_key(k) && keep@[orig.index_of(k)]) by {
                if self.map().contains_key(k) {
                    let a = self.index_of(k);
                    self.lemma_index_of(a);
                    assert(self.key_at(a) == orig.key_at(kept_idx[a]));
                    orig.lemma_index_of(kept_idx[a]);
                }
                if orig.map().contains_key(k) && keep@[orig.index_of(k)] {
                    let j = orig.index_of(k);
                    let a = choose|a: int| 0 <= a < kept_idx.len() && #[trigger] kept_idx[a] == j;
                    assert(self.key_at(a) == k);
                }
            }
            assert forall|k: K::V| #[trigger] self.map().contains_key(k) implies self.map()[k] == orig.map()[k] by {
                let a = self.index_of(k);
                self.lemma_index_of(a);
                orig.lemma_index_of(kept_idx[a]);
            }
        }
    }
}

} // verus!
