//! Per-link 60 s rollups of the raw samples.
//!
//! Each link keeps a ring of minute buckets, ascending by bucket start; a
//! bucket holds an aggregate `A` of the samples of its minute. Folding a
//! sample into an aggregate happens with the caller (it reads the bucket with
//! `bucket_at` and writes the new aggregate with `put_bucket`); the placement,
//! retention, range queries and the set of buckets still to be written to the
//! durable copy are kept here.

use crate::assoc::{AssocMap, KeyView};
use crate::controller::model::{LinkKey, LinkKeyView};
use crate::controller::tsdb::{bucket_of, BUCKET_SECS};
use vstd::prelude::*;

verus! {

/// A bucket ring: (bucket start, aggregate), ascending by start.
pub type RingView<A> = Seq<(u64, A)>;

/// Strictly ascending bucket starts.
pub open spec fn ascending_starts<A>(s: RingView<A>) -> bool {
    forall|i: int, j: int| 0 <= i < j < s.len() ==> (#[trigger] s[i]).0 < (#[trigger] s[j]).0
}

/// Position of the first bucket starting at or after `b`.
pub open spec fn first_not_below<A>(s: RingView<A>, b: u64) -> int
    decreases s.len(),
{
    if s.len() == 0 {
        0
    } else if s[0].0 >= b {
        0
    } else {
        1 + first_not_below(s.drop_first(), b)
    }
}

/// The ring with bucket `b` holding `a`: replaced in place when present,
/// else inserted at its sorted position.
pub open spec fn with_bucket<A>(s: RingView<A>, b: u64, a: A) -> RingView<A> {
    let p = first_not_below(s, b);
    if p < s.len() && s[p].0 == b {
        s.update(p, (b, a))
    } else {
        s.take(p) + seq![(b, a)] + s.skip(p)
    }
}

/// The aggregate of bucket `b`, if the ring has it.
pub open spec fn bucket_in<A>(s: RingView<A>, b: u64) -> Option<A> {
    let p = first_not_below(s, b);
    if p < s.len() && s[p].0 == b {
        Some(s[p].1)
    } else {
        None
    }
}

/// Buckets with `since <= start < until`, in order.
pub open spec fn buckets_between<A>(s: RingView<A>, since: u64, until: u64) -> RingView<A>
    decreases s.len(),
{
    if s.len() == 0 {
        Seq::empty()
    } else {
        let before = buckets_between(s.drop_last(), since, until);
        if since <= s.last().0 < until {
            before.push(s.last())
        } else {
            before
        }
    }
}

proof fn lemma_first_not_below<A>(s: RingView<A>, b: u64)
    requires
        ascending_starts(s),
    ensures
        0 <= first_not_below(s, b) <= s.len(),
        forall|i: int| 0 <= i < first_not_below(s, b) ==> (#[trigger] s[i]).0 < b,
        forall|i: int| first_not_below(s, b) <= i < s.len() ==> (#[trigger] s[i]).0 >= b,
    decreases s.len(),
{
    if s.len() > 0 && s[0].0 < b {
        assert(ascending_starts(s.drop_first())) by {
            assert forall|i: int, j: int| 0 <= i < j < s.drop_first().len() implies (#[trigger] s.drop_first()[i]).0 < (#[trigger] s.drop_first()[j]).0 by {
                assert(s.drop_first()[i] == s[i + 1]);
                assert(s.drop_first()[j] == s[j + 1]);
            }
        }
        lemma_first_not_below(s.drop_first(), b);
        assert forall|i: int| 0 <= i < first_not_below(s, b) implies (#[trigger] s[i]).0 < b by {
            if i > 0 {
                assert(s[i] == s.drop_first()[i - 1]);
            }
        }
        assert forall|i: int| first_not_below(s, b) <= i < s.len() implies (#[trigger] s[i]).0 >= b by {
            assert(s[i] == s.drop_first()[i - 1]);
        }
    } else if s.len() > 0 {
        assert forall|i: int| 0 <= i < s.len() implies (#[trigger] s[i]).0 >= b by {
            if i > 0 {
                assert(s[0].0 < s[i].0);
            }
        }
    }
}

proof fn lemma_with_bucket<A>(s: RingView<A>, b: u64, a: A)
    requires
        ascending_starts(s),
    ensures
        ascending_starts(with_bucket(s, b, a)),
        bucket_in(with_bucket(s, b, a), b) == Some(a),
        with_bucket(s, b, a).len() > 0,
{
    lemma_first_not_below(s, b);
    let p = first_not_below(s, b);
    let r = with_bucket(s, b, a);
    if p < s.len() && s[p].0 == b {
        assert(ascending_starts(r)) by {
            assert forall|i: int, j: int| 0 <= i < j < r.len() implies (#[trigger] r[i]).0 < (#[trigger] r[j]).0 by {
                assert(s[i].0 < s[j].0);
            }
        }
        lemma_first_not_below(r, b);
        assert(r[p].0 == b);
        if first_not_below(r, b) < p {
            assert(r[first_not_below(r, b)].0 < b);
        }
        if first_not_below(r, b) > p {
            assert(r[p].0 < b);
        }
    } else {
        assert(ascending_starts(r)) by {
            assert forall|i: int, j: int| 0 <= i < j < r.len() implies (#[trigger] r[i]).0 < (#[trigger] r[j]).0 by {
                if j < p {
                    assert(r[i] == s[i] && r[j] == s[j]);
                } else if j == p {
                    assert(r[i] == s[i]);
                } else if i < p {
                    assert(r[i] == s[i] && r[j] == s[j - 1]);
                } else if i == p {
                    assert(r[j] == s[j - 1]);
                    assert(s[j - 1].0 >= b);
                    if s[j - 1].0 == b {
                        if j - 1 > p {
                            assert(s[p].0 < s[j - 1].0);
                        }
                    }
                } else {
                    assert(r[i] == s[i - 1] && r[j] == s[j - 1]);
                }
            }
        }
        lemma_first_not_below(r, b);
        assert(r[p] == (b, a));
        if first_not_below(r, b) < p {
            assert(r[first_not_below(r, b)] == s[first_not_below(r, b)]);
        }
        if first_not_below(r, b) > p {
            assert(r[p].0 < b);
        }
    }
}

/// Key of a bucket still to be written: (link, bucket start).
#[derive(Debug)]
pub struct DirtyKey {
    pub link: LinkKey,
    pub bucket: u64,
}

impl View for DirtyKey {
    type V = (LinkKeyView, u64);

    open spec fn view(&self) -> (LinkKeyView, u64) {
        (self.link@, self.bucket)
    }
}

impl KeyView for DirtyKey {
    fn key_eq(&self, other: &Self) -> (r: bool) {
        self.link.key_eq(&other.link) && self.bucket == other.bucket
    }

    fn key_clone(&self) -> (r: Self) {
        DirtyKey { link: self.link.key_clone(), bucket: self.bucket }
    }
}

/// The rollups as plain values.
pub struct RollupView<A> {
    /// link -> its buckets, ascending by start.
    pub rings: Map<LinkKeyView, RingView<A>>,
    /// (link, bucket start) -> aggregate not yet written to the durable copy.
    pub dirty: Map<(LinkKeyView, u64), A>,
}

/// Per-link minute buckets.
pub struct Rollups<A> {
    rings: AssocMap<LinkKey, Vec<(u64, A)>>,
    dirty: AssocMap<DirtyKey, A>,
}

impl<A> View for Rollups<A> {
    type V = RollupView<A>;

    closed spec fn view(&self) -> RollupView<A> {
        RollupView { rings: self.rings.map().map_values(|r: Vec<(u64, A)>| r@), dirty: self.dirty.map() }
    }
}

impl<A: Copy> Rollups<A> {
    /// Rings are non-empty and ascending by bucket start.
    pub closed spec fn wf(&self) -> bool {
        &&& self.rings.wf()
        &&& self.dirty.wf()
        &&& forall|k: LinkKeyView| #[trigger] self@.rings.contains_key(k) ==> self@.rings[k].len() > 0 && ascending_starts(self@.rings[k])
    }

    pub fn new() -> (r: Self)
        ensures
            r.wf(),
            r@.rings == Map::<LinkKeyView, RingView<A>>::empty(),
            r@.dirty == Map::<(LinkKeyView, u64), A>::empty(),
    {
        let r = Rollups { rings: AssocMap::new(), dirty: AssocMap::new() };
        assert(r@.rings =~= Map::<LinkKeyView, RingView<A>>::empty());
        r
    }

    /// The aggregate of the bucket holding `ts`, if any.
    pub fn bucket_at(&self, link: &LinkKey, ts: u64) -> (r: Option<A>)
        requires
            self.wf(),
        ensures
            r == (if self@.rings.contains_key(link@) { bucket_in(self@.rings[link@], bucket_of(ts)) } else { None }),
    {
        let b = ts - ts % BUCKET_SECS;
        match self.rings.get(link) {
            Some(ring) => {
                proof {
                    assert(self@.rings.contains_key(link@));
                    assert(ring@ == self@.rings[link@]);
                    lemma_first_not_below(ring@, b);
                }
                let i = position(ring, b);
                if i < ring.len() && ring[i].0 == b {
                    Some(ring[i].1)
                } else {
                    None
                }
            },
            None => None,
        }
    }

    /// Store `agg` as the aggregate of the bucket holding `ts`, and mark it
    /// for the durable copy.
    pub fn put_bucket(&mut self, link: &LinkKey, ts: u64, agg: A)
        requires
            old(self).wf(),
        ensures
            final(self).wf(),
            final(self)@.rings == old(self)@.rings.insert(
                link@,
                with_bucket(if old(self)@.rings.contains_key(link@) { old(self)@.rings[link@] } else { Seq::empty() }, bucket_of(ts), agg),
            ),
            final(self)@.dirty == old(self)@.dirty.insert((link@, bucket_of(ts)), agg),
    {
        let b = ts - ts % BUCKET_SECS;
        self.set(link, b, agg);
        self.dirty.insert(DirtyKey { link: link.clone(), bucket: b }, agg);
    }

    /// Restore a bucket read back from the durable copy; a bucket already
    /// held is kept.
    pub fn load_bucket(&mut self, link: &LinkKey, bucket: u64, agg: A)
        requires
            old(self).wf(),
        ensures
            final(self).wf(),
            final(self)@.dirty == old(self)@.dirty,
            ({
                let ring = if old(self)@.rings.contains_key(link@) { old(self)@.rings[link@] } else { Seq::empty() };
                final(self)@.rings == if bucket_in(ring, bucket) is Some {
                    old(self)@.rings
                } else {
                    old(self)@.rings.insert(link@, with_bucket(ring, bucket, agg))
                }
            }),
    {
        let held = match self.rings.get(link) {
            Some(ring) => {
                proof {
                    assert(self@.rings.contains_key(link@));
                    assert(ring@ == self@.rings[link@]);
                }
                let i = position(ring, bucket);
                i < ring.len() && ring[i].0 == bucket
            },
            None => false,
        };
        if !held {
            self.set(link, bucket, agg);
        }
    }

    fn set(&mut self, link: &LinkKey, b: u64, agg: A)
        requires
            old(self).wf(),
        ensures
            final(self).wf(),
            final(self)@.rings == old(self)@.rings.insert(
                link@,
                with_bucket(if old(self)@.rings.contains_key(link@) { old(self)@.rings[link@] } else { Seq::empty() }, b, agg),
            ),
            final(self)@.dirty == old(self)@.dirty,
    {
        let ghost before = self@.rings;
        let taken = self.rings.remove(link);
        let mut ring = match taken {
            Some(r) => r,
            None => Vec::new(),
        };
        let ghost r0 = ring@;
        proof {
            assert(r0 == (if before.contains_key(link@) { before[link@] } else { Seq::empty() }));
            if !before.contains_key(link@) {
                assert(ascending_starts(r0));
            }
            lemma_first_not_below(r0, b);
            lemma_with_bucket(r0, b, agg);
        }
        let i = position(&ring, b);
        if i < ring.len() && ring[i].0 == b {
            ring.set(i, (b, agg));
        } else {
            ring.insert(i, (b, agg));
            proof {
                assert(ring@ =~= r0.take(i as int) + seq![(b, agg)] + r0.skip(i as int));
            }
        }
        self.rings.insert(link.clone(), ring);
        proof {
            assert(self@.rings =~= before.insert(link@, with_bucket(r0, b, agg)));
            assert forall|k: LinkKeyView| #[trigger] self@.rings.contains_key(k) implies self@.rings[k].len() > 0 && ascending_starts(self@.rings[k]) by {
                if k != link@ {
                    assert(before.contains_key(k));
                }
            }
        }
    }

    /// Buckets of `link` starting in `[since, until)`.
    pub fn query(&self, link: &LinkKey, since: u64, until: u64) -> (r: Vec<(u64, A)>)
        requires
            self.wf(),
        ensures
            r@ == (if self@.rings.contains_key(link@) { buckets_between(self@.rings[link@], since, until) } else { Seq::empty() }),
    {
        let mut out: Vec<(u64, A)> = Vec::new();
        match self.rings.get(link) {
            Some(ring) => {
                proof {
                    assert(ring@ == self@.rings[link@]);
                }
                let mut i: usize = 0;
                while i < ring.len()
                    invariant
                        i <= ring@.len(),
                        out@ == buckets_between(ring@.take(i as int), since, until),
                    decreases ring@.len() - i,
                {
                    proof {
                        assert(ring@.take(i + 1).drop_last() =~= ring@.take(i as int));
                        assert(ring@.take(i + 1).last() == ring@[i as int]);
                    }
                    if since <= ring[i].0 && ring[i].0 < until {
                        out.push(ring[i]);
                    }
                    i = i + 1;
                }
                proof {
                    assert(ring@.take(ring@.len() as int) =~= ring@);
                }
            },
            None => {},
        }
        out
    }

    /// Hand the buckets awaiting the durable copy to the caller, leaving none.
    pub fn take_dirty(&mut self) -> (r: Vec<(LinkKey, u64, A)>)
        requires
            old(self).wf(),
        ensures
            final(self).wf(),
            final(self)@.rings == old(self)@.rings,
            final(self)@.dirty == Map::<(LinkKeyView, u64), A>::empty(),
            forall|i: int| 0 <= i < r@.len() ==> #[trigger] old(self)@.dirty.contains_key((r@[i].0@, r@[i].1))
                && old(self)@.dirty[(r@[i].0@, r@[i].1)] == r@[i].2,
            forall|k: (LinkKeyView, u64)| #[trigger] old(self)@.dirty.contains_key(k) ==> exists|i: int| 0 <= i < r@.len() && (#[trigger] r@[i]).0@ == k.0 && r@[i].1 == k.1,
    {
        let mut out: Vec<(LinkKey, u64, A)> = Vec::new();
        let n = self.dirty.len();
        let mut i: usize = 0;
        while i < n
            invariant
                self.wf(),
                *self == *old(self),
                n == self.dirty.seq().len(),
                i <= n,
                out@.len() == i,
                forall|j: int| 0 <= j < i ==> (#[trigger] out@[j]).0@ == self.dirty.seq()[j].0.link@ && out@[j].1 == self.dirty.seq()[j].0.bucket
                    && out@[j].2 == self.dirty.seq()[j].1,
            decreases n - i,
        {
            let e = self.dirty.entry(i);
            out.push((e.0.link.clone(), e.0.bucket, e.1));
            i = i + 1;
        }
        proof {
            assert forall|j: int| 0 <= j < out@.len() implies #[trigger] self@.dirty.contains_key((out@[j].0@, out@[j].1))
                && self@.dirty[(out@[j].0@, out@[j].1)] == out@[j].2 by {
                self.dirty.lemma_index_of(j);
            }
            assert forall|k: (LinkKeyView, u64)| #[trigger] self@.dirty.contains_key(k) implies exists|j: int| 0 <= j < out@.len() && (#[trigger] out@[j]).0@ == k.0 && out@[j].1 == k.1 by {
                self.dirty.lemma_map_domain();
                let j = self.dirty.index_of(k);
                assert(out@[j].0@ == k.0);
            }
        }
        self.dirty = AssocMap::new();
        proof {
            assert(self@.rings == old(self)@.rings);
            assert(self@.dirty =~= Map::<(LinkKeyView, u64), A>::empty());
            assert forall|k: LinkKeyView| #[trigger] self@.rings.contains_key(k) implies self@.rings[k].len() > 0 && ascending_starts(self@.rings[k]) by {
                assert(old(self)@.rings.contains_key(k));
            }
        }
        out
    }

    /// Drop buckets older than `cutoff`, and rings left empty.
    pub fn prune(&mut self, cutoff: u64)
        requires
            old(self).wf(),
        ensures
            final(self).wf(),
            final(self)@.dirty == old(self)@.dirty,
            forall|k: LinkKeyView| #[trigger] final(self)@.rings.contains_key(k) <==> (old(self)@.rings.contains_key(k)
                && first_not_below(old(self)@.rings[k], cutoff) < old(self)@.rings[k].len()),
            forall|k: LinkKeyView| #[trigger] final(self)@.rings.contains_key(k) ==> final(self)@.rings[k] == old(self)@.rings[k].skip(
                first_not_below(old(self)@.rings[k], cutoff),
            ),
    {
        let n = self.rings.len();
        let mut keep: Vec<bool> = Vec::new();
        let mut i: usize = 0;
        let ghost orig = *self;
        proof {
            self.rings.lemma_map_domain();
        }
        while i < n
            invariant
                self.rings.wf(),
                self.dirty == orig.dirty,
                orig.wf(),
                n == self.rings.seq().len(),
                n == orig.rings.seq().len(),
                i <= n,
                keep@.len() == i,
                forall|j: int| 0 <= j < n ==> #[trigger] self.rings.key_at(j) == orig.rings.key_at(j),
                forall|j: int| 0 <= j < i ==> (#[trigger] self.rings.seq()[j]).1@ == orig.rings.seq()[j].1@.skip(
                    first_not_below(orig.rings.seq()[j].1@, cutoff),
                ),
                forall|j: int| i <= j < n ==> (#[trigger] self.rings.seq()[j]).1@ == orig.rings.seq()[j].1@,
                forall|j: int| 0 <= j < i ==> #[trigger] keep@[j] == (first_not_below(orig.rings.seq()[j].1@, cutoff)
                    < orig.rings.seq()[j].1@.len()),
            decreases n - i,
        {
            let ring = &self.rings.entry(i).1;
            proof {
                orig.rings.lemma_index_of(i as int);
                let k = orig.rings.key_at(i as int);
                assert(orig@.rings.contains_key(k));
                assert(orig@.rings[k] == orig.rings.seq()[i as int].1@);
                lemma_first_not_below(ring@, cutoff);
            }
            let p = position(ring, cutoff);
            let mut trimmed: Vec<(u64, A)> = Vec::new();
            let mut t = p;
            while t < ring.len()
                invariant
                    p <= t <= ring@.len(),
                    trimmed@ == ring@.subrange(p as int, t as int),
                decreases ring@.len() - t,
            {
                trimmed.push(ring[t]);
                proof {
                    assert(ring@.subrange(p as int, t + 1) =~= ring@.subrange(p as int, t as int).push(ring@[t as int]));
                }
                t = t + 1;
            }
            let nonempty = trimmed.len() > 0;
            proof {
                assert(trimmed@ =~= ring@.skip(p as int));
            }
            let ghost before = *self;
            self.rings.replace_at(i, trimmed);
            keep.push(nonempty);
            proof {
                assert forall|j: int| 0 <= j < n implies #[trigger] self.rings.key_at(j) == orig.rings.key_at(j) by {
                    assert(self.rings.key_at(j) == before.rings.key_at(j));
                }
                assert forall|j: int| 0 <= j < n && j != i implies (#[trigger] self.rings.seq()[j]) == before.rings.seq()[j] by {}
            }
            i = i + 1;
        }
        let ghost mid = *self;
        self.rings.retain_mask(&keep);
        proof {
            orig.rings.lemma_map_domain();
            mid.rings.lemma_map_domain();
            assert forall|k: LinkKeyView| #[trigger] self@.rings.contains_key(k) <==> (orig@.rings.contains_key(k)
                && first_not_below(orig@.rings[k], cutoff) < orig@.rings[k].len()) by {
                if orig@.rings.contains_key(k) || mid.rings.map().contains_key(k) {
                    if mid.rings.map().contains_key(k) {
                        let j = mid.rings.index_of(k);
                        assert(orig.rings.key_at(j) == k);
                        orig.rings.lemma_index_of(j);
                    } else {
                        let j = orig.rings.index_of(k);
                        assert(mid.rings.key_at(j) == k);
                        mid.rings.lemma_index_of(j);
                    }
                }
            }
            assert forall|k: LinkKeyView| #[trigger] self@.rings.contains_key(k) implies self@.rings[k] == orig@.rings[k].skip(
                first_not_below(orig@.rings[k], cutoff),
            ) && self@.rings[k].len() > 0 && ascending_starts(self@.rings[k]) by {
                let j = mid.rings.index_of(k);
                assert(orig.rings.key_at(j) == k);
                orig.rings.lemma_index_of(j);
                mid.rings.lemma_index_of(j);
                let s = orig@.rings[k];
                lemma_first_not_below(s, cutoff);
                let q = first_not_below(s, cutoff);
                assert forall|a: int, b: int| 0 <= a < b < s.skip(q).len() implies (#[trigger] s.skip(q)[a]).0 < (#[trigger] s.skip(q)[b]).0 by {
                    assert(s.skip(q)[a] == s[a + q]);
                    assert(s.skip(q)[b] == s[b + q]);
                }
            }
        }
    }
}

/// Position of the first bucket of `ring` starting at or after `b`.
fn position<A: Copy>(ring: &Vec<(u64, A)>, b: u64) -> (r: usize)
    requires
        ascending_starts(ring@),
    ensures
        r as int == first_not_below(ring@, b),
        r <= ring@.len(),
{
    let mut i: usize = 0;
    proof {
        lemma_first_not_below(ring@, b);
    }
    while i < ring.len() && ring[i].0 < b
        invariant
            i <= ring@.len(),
            ascending_starts(ring@),
            0 <= first_not_below(ring@, b) <= ring@.len(),
            forall|j: int| 0 <= j < first_not_below(ring@, b) ==> (#[trigger] ring@[j]).0 < b,
            forall|j: int| first_not_below(ring@, b) <= j < ring@.len() ==> (#[trigger] ring@[j]).0 >= b,
            i <= first_not_below(ring@, b),
        decreases ring@.len() - i,
    {
        i = i + 1;
    }
    i
}

/// A bucket that was just written reads back as written, and the ring stays
/// ascending.
pub proof fn law_bucket_read_back<A>(s: RingView<A>, b: u64, a: A)
    requires
        ascending_starts(s),
    ensures
        bucket_in(with_bucket(s, b, a), b) == Some(a),
        ascending_starts(with_bucket(s, b, a)),
{
    lemma_with_bucket(s, b, a);
}

} // verus!
