//! Last-write-wins store of per-link quality records.

use crate::assoc::AssocMap;
use crate::controller::model::{LinkKey, LinkKeyView, QualityRecord};
use vstd::prelude::*;

verus! {

/// The store's state: link -> record.
pub type KvView<M> = Map<LinkKeyView, QualityRecord<M>>;

/// A record is taken when it is at least as new as the stored one.
pub open spec fn lww_accepts<M>(m: KvView<M>, k: LinkKeyView, rec: QualityRecord<M>) -> bool {
    !m.contains_key(k) || rec.ts >= m[k].ts
}

/// One last-write-wins step.
pub open spec fn lww_put<M>(m: KvView<M>, k: LinkKeyView, rec: QualityRecord<M>) -> KvView<M> {
    if lww_accepts(m, k, rec) {
        m.insert(k, rec)
    } else {
        m
    }
}

/// Last-write-wins over a batch, first to last.
pub open spec fn lww_merge<M>(m: KvView<M>, s: Seq<(LinkKeyView, QualityRecord<M>)>) -> KvView<M>
    decreases s.len(),
{
    if s.len() == 0 {
        m
    } else {
        let last = s.last();
        lww_put(lww_merge(m, s.drop_last()), last.0, last.1)
    }
}

/// Records still within `max_age_secs` of `now`.
pub open spec fn fresh_enough<M>(rec: QualityRecord<M>, now: u64, max_age_secs: u64) -> bool {
    (if now >= rec.ts {
        now - rec.ts
    } else {
        0
    }) <= max_age_secs
}

/// Last-write-wins store of per-link quality records.
pub struct LwwStore<M> {
    inner: AssocMap<LinkKey, QualityRecord<M>>,
}

impl<M> View for LwwStore<M> {
    type V = KvView<M>;

    closed spec fn view(&self) -> KvView<M> {
        self.inner.map()
    }
}

impl<M: Copy> LwwStore<M> {
    pub closed spec fn wf(&self) -> bool {
        self.inner.wf()
    }

    pub fn new() -> (r: Self)
        ensures
            r.wf(),
            r@ == Map::<LinkKeyView, QualityRecord<M>>::empty(),
    {
        LwwStore { inner: AssocMap::new() }
    }

    /// Insert or overwrite by timestamp (LWW). Returns the previous record,
    /// if any.
    pub fn put(&mut self, key: LinkKey, rec: QualityRecord<M>) -> (r: Option<QualityRecord<M>>)
        requires
            old(self).wf(),
        ensures
            final(self).wf(),
            final(self)@ == lww_put(old(self)@, key@, rec),
            r == (if old(self)@.contains_key(key@) {
                Some(old(self)@[key@])
            } else {
                None::<QualityRecord<M>>
            }),
            final(self)@.contains_key(key@),
    {
        let prev = match self.inner.get(&key) {
            Some(p) => Some(*p),
            None => None,
        };
        let prev_ts = match prev {
            Some(p) => p.ts,
            None => 0,
        };
        if rec.ts < prev_ts {
            return prev;
        }
        self.inner.insert(key, rec);
        prev
    }

    pub fn get(&self, key: &LinkKey) -> (r: Option<QualityRecord<M>>)
        requires
            self.wf(),
        ensures
            r is Some <==> self@.contains_key(key@),
            r is Some ==> r.unwrap() == self@[key@],
    {
        match self.inner.get(key) {
            Some(rec) => Some(*rec),
            None => None,
        }
    }

    /// Every (link, record) pair, each link once.
    pub fn all(&self) -> (r: Vec<(LinkKey, QualityRecord<M>)>)
        requires
            self.wf(),
        ensures
            forall|i: int| 0 <= i < r@.len() ==> #[trigger] self@.contains_key(r@[i].0@) && self@[r@[i].0@] == r@[i].1,
            forall|k: LinkKeyView| #[trigger] self@.contains_key(k) ==> exists|i: int| 0 <= i < r@.len() && #[trigger] r@[i].0@ == k,
            forall|i: int, j: int| 0 <= i < j < r@.len() ==> r@[i].0@ != r@[j].0@,
            r@.len() == self.spec_len(),
    {
        let mut out: Vec<(LinkKey, QualityRecord<M>)> = Vec::new();
        let n = self.inner.len();
        let mut i: usize = 0;
        while i < n
            invariant
                self.wf(),
                n == self.inner.seq().len(),
                i <= n,
                out@.len() == i,
                forall|j: int| 0 <= j < i ==> #[trigger] out@[j].0@ == self.inner.key_at(j) && out@[j].1 == self.inner.seq()[j].1,
            decreases n - i,
        {
            let e = self.inner.entry(i);
            out.push((e.0.clone(), e.1));
            i = i + 1;
        }
        proof {
            assert forall|j: int| 0 <= j < out@.len() implies #[trigger] self@.contains_key(out@[j].0@) && self@[out@[j].0@] == out@[j].1 by {
                self.inner.lemma_index_of(j);
            }
            assert forall|k: LinkKeyView| #[trigger] self@.contains_key(k) implies exists|j: int| 0 <= j < out@.len() && #[trigger] out@[j].0@ == k by {
                self.inner.lemma_map_domain();
                let j = self.inner.index_of(k);
                assert(out@[j].0@ == k);
            }
        }
        out
    }

    /// Number of stored links.
    pub closed spec fn spec_len(&self) -> nat {
        self.inner.seq().len()
    }

    pub fn len(&self) -> (r: usize)
        ensures
            r == self.spec_len(),
    {
        self.inner.len()
    }

    pub fn is_empty(&self) -> (r: bool)
        requires
            self.wf(),
        ensures
            r == (self.spec_len() == 0),
            r == (self@ == Map::<LinkKeyView, QualityRecord<M>>::empty()),
    {
        proof {
            if self.spec_len() > 0 {
                self.inner.lemma_index_of(0);
                assert(self@.contains_key(self.inner.key_at(0)));
            } else {
                assert(self@ =~= Map::<LinkKeyView, QualityRecord<M>>::empty());
            }
        }
        self.len() == 0
    }

    /// Merge a batch of records (gossip anti-entropy): each is taken when it
    /// is at least as new as what the store holds for its link.
    pub fn merge(&mut self, records: &[(LinkKey, QualityRecord<M>)])
        requires
            old(self).wf(),
        ensures
            final(self).wf(),
            final(self)@ == lww_merge(old(self)@, records@.map_values(|e: (LinkKey, QualityRecord<M>)| (e.0@, e.1))),
    {
        let ghost batch = records@.map_values(|e: (LinkKey, QualityRecord<M>)| (e.0@, e.1));
        let mut i: usize = 0;
        while i < records.len()
            invariant
                self.wf(),
                i <= records@.len(),
                batch == records@.map_values(|e: (LinkKey, QualityRecord<M>)| (e.0@, e.1)),
                self@ == lww_merge(old(self)@, batch.take(i as int)),
            decreases records@.len() - i,
        {
            let k = &records[i].0;
            let v = records[i].1;
            let prev = match self.inner.get(k) {
                Some(p) => p.ts,
                None => 0,
            };
            if v.ts >= prev {
                self.inner.insert(k.clone(), v);
            }
            proof {
                assert(batch.take(i + 1).drop_last() =~= batch.take(i as int));
                assert(batch.take(i + 1).last() == batch[i as int]);
            }
            i = i + 1;
        }
        proof {
            assert(batch.take(records@.len() as int) =~= batch);
        }
    }

    /// Drop records older than `max_age_secs` (LWW store expires stale entries).
    pub fn prune(&mut self, now_secs: u64, max_age_secs: u64)
        requires
            old(self).wf(),
        ensures
            final(self).wf(),
            forall|k: LinkKeyView| #[trigger]
                final(self)@.contains_key(k) <==> (old(self)@.contains_key(k) && fresh_enough(
                    old(self)@[k],
                    now_secs,
                    max_age_secs,
                )),
            forall|k: LinkKeyView| #[trigger] final(self)@.contains_key(k) ==> final(self)@[k] == old(self)@[k],
    {
        let n = self.inner.len();
        let mut keep: Vec<bool> = Vec::new();
        let mut i: usize = 0;
        while i < n
            invariant
                n == self.inner.seq().len(),
                i <= n,
                keep@.len() == i,
                forall|j: int| 0 <= j < i ==> #[trigger] keep@[j] == fresh_enough(self.inner.seq()[j].1, now_secs, max_age_secs),
            decreases n - i,
        {
            let ts = self.inner.entry(i).1.ts;
            keep.push(now_secs.saturating_sub(ts) <= max_age_secs);
            i = i + 1;
        }
        proof {
            self.inner.lemma_map_domain();
        }
        self.inner.retain_mask(&keep);
    }
}

/// Put never moves a link's record back in time: the stored timestamp after a
/// write is the larger of the old one and the written one.
pub proof fn law_put_never_regresses<M>(m: KvView<M>, k: LinkKeyView, rec: QualityRecord<M>)
    ensures
        lww_put(m, k, rec).contains_key(k),
        m.contains_key(k) ==> lww_put(m, k, rec)[k].ts >= m[k].ts,
        lww_put(m, k, rec)[k].ts >= rec.ts || (m.contains_key(k) && lww_put(m, k, rec)[k] == m[k]),
        lww_accepts(m, k, rec) ==> lww_put(m, k, rec)[k] == rec,
        !lww_accepts(m, k, rec) ==> lww_put(m, k, rec) == m,
{
}

/// Re-delivering the same record changes nothing (gossip resends are harmless).
pub proof fn law_put_idempotent<M>(m: KvView<M>, k: LinkKeyView, rec: QualityRecord<M>)
    ensures
        lww_put(lww_put(m, k, rec), k, rec) == lww_put(m, k, rec),
{
    assert(lww_put(lww_put(m, k, rec), k, rec) =~= lww_put(m, k, rec));
}

/// Two writes commute unless they hit the same link with the same timestamp
/// and different contents: replicas that see the same writes in any order
/// converge.
pub proof fn law_put_commutes<M>(
    m: KvView<M>,
    k1: LinkKeyView,
    r1: QualityRecord<M>,
    k2: LinkKeyView,
    r2: QualityRecord<M>,
)
    requires
        k1 != k2 || r1.ts != r2.ts || r1 == r2,
    ensures
        lww_put(lww_put(m, k1, r1), k2, r2) == lww_put(lww_put(m, k2, r2), k1, r1),
{
    assert(lww_put(lww_put(m, k1, r1), k2, r2) =~= lww_put(lww_put(m, k2, r2), k1, r1));
}

/// Merging a peer's view keeps the newest record per link: no link is lost,
/// no link's timestamp moves back, every link ends at least as new as each
/// incoming record for it, and every stored record is either the old one or
/// an incoming one.
pub proof fn law_merge_keeps_newest<M>(m: KvView<M>, s: Seq<(LinkKeyView, QualityRecord<M>)>)
    ensures
        forall|k: LinkKeyView| #[trigger] m.contains_key(k) ==> lww_merge(m, s).contains_key(k) && lww_merge(m, s)[k].ts >= m[k].ts,
        forall|i: int| 0 <= i < s.len() ==> lww_merge(m, s).contains_key(#[trigger] s[i].0) && lww_merge(m, s)[s[i].0].ts >= s[i].1.ts,
        forall|k: LinkKeyView| #[trigger] lww_merge(m, s).contains_key(k) ==> (m.contains_key(k) && lww_merge(m, s)[k] == m[k]) || exists|i: int|
            0 <= i < s.len() && #[trigger] s[i] == (k, lww_merge(m, s)[k]),
    decreases s.len(),
{
    if s.len() > 0 {
        let p = s.drop_last();
        law_merge_keeps_newest(m, p);
        let before = lww_merge(m, p);
        let after = lww_merge(m, s);
        assert(after == lww_put(before, s.last().0, s.last().1));
        assert forall|i: int| 0 <= i < s.len() implies after.contains_key(#[trigger] s[i].0) && after[s[i].0].ts >= s[i].1.ts by {
            if i < s.len() - 1 {
                assert(s[i] == p[i]);
            }
        }
        assert forall|k: LinkKeyView| #[trigger] after.contains_key(k) implies (m.contains_key(k) && after[k] == m[k]) || exists|i: int|
            0 <= i < s.len() && #[trigger] s[i] == (k, after[k]) by {
            if k == s.last().0 && lww_accepts(before, k, s.last().1) {
                assert(s[s.len() - 1] == (k, after[k]));
            } else if !(m.contains_key(k) && before[k] == m[k]) {
                let i = choose|i: int| 0 <= i < p.len() && #[trigger] p[i] == (k, before[k]);
                assert(s[i] == p[i]);
            }
        }
    }
}

/// A single write can be moved past a merge that holds no record for its
/// link with its timestamp and other contents.
proof fn lemma_put_past_merge<M>(m: KvView<M>, s: Seq<(LinkKeyView, QualityRecord<M>)>, k: LinkKeyView, r: QualityRecord<M>)
    requires
        forall|j: int| 0 <= j < s.len() && (#[trigger] s[j]).0 == k && s[j].1.ts == r.ts ==> s[j].1 == r,
    ensures
        lww_put(lww_merge(m, s), k, r) == lww_merge(lww_put(m, k, r), s),
    decreases s.len(),
{
    if s.len() > 0 {
        let p = s.drop_last();
        assert forall|j: int| 0 <= j < p.len() && (#[trigger] p[j]).0 == k && p[j].1.ts == r.ts implies p[j].1 == r by {
            assert(p[j] == s[j]);
        }
        lemma_put_past_merge(m, p, k, r);
        assert(s.last() == s[s.len() - 1]);
        law_put_commutes(lww_merge(m, p), k, r, s.last().0, s.last().1);
    }
}

/// Two gossip merges commute when they hold no two records for one link
/// with the same timestamp and different contents: replicas that receive the
/// same views in either order converge.
pub proof fn law_merges_commute<M>(m: KvView<M>, xs: Seq<(LinkKeyView, QualityRecord<M>)>, ys: Seq<(LinkKeyView, QualityRecord<M>)>)
    requires
        forall|i: int, j: int|
            0 <= i < xs.len() && 0 <= j < ys.len() && (#[trigger] xs[i]).0 == (#[trigger] ys[j]).0 && xs[i].1.ts == ys[j].1.ts
                ==> xs[i].1 == ys[j].1,
    ensures
        lww_merge(lww_merge(m, xs), ys) == lww_merge(lww_merge(m, ys), xs),
    decreases xs.len(),
{
    if xs.len() > 0 {
        let p = xs.drop_last();
        let x = xs.last();
        assert forall|i: int, j: int|
            0 <= i < p.len() && 0 <= j < ys.len() && (#[trigger] p[i]).0 == (#[trigger] ys[j]).0 && p[i].1.ts == ys[j].1.ts
                implies p[i].1 == ys[j].1 by {
            assert(p[i] == xs[i]);
        }
        law_merges_commute(m, p, ys);
        assert forall|j: int| 0 <= j < ys.len() && (#[trigger] ys[j]).0 == x.0 && ys[j].1.ts == x.1.ts implies ys[j].1 == x.1 by {
            assert(x == xs[xs.len() - 1]);
        }
        lemma_put_past_merge(lww_merge(m, p), ys, x.0, x.1);
    }
}

} // verus!
