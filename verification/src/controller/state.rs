//! Shared controller state pieces: readiness and per-member peer liveness.

use crate::assoc::AssocMap;
use vstd::prelude::*;

verus! {

/// Readiness: true once the node has initialised listeners/gossip and can
/// serve.
pub struct Ready {
    ready: bool,
}

impl Ready {
    /// Not ready yet.
    pub fn new() -> (r: Self)
        ensures
            !r.spec_ready(),
    {
        Ready { ready: false }
    }

    pub closed spec fn spec_ready(&self) -> bool {
        self.ready
    }

    pub fn set_ready(&mut self, v: bool)
        ensures
            final(self).spec_ready() == v,
    {
        self.ready = v;
    }

    pub fn is_ready(&self) -> (r: bool)
        ensures
            r == self.spec_ready(),
    {
        self.ready
    }
}

/// Per-membership peer liveness, populated by the gossip loop.
#[derive(Debug, Clone, Copy, PartialEq, Eq, Structural)]
pub struct PeerHealthEntry {
    /// Unix epoch seconds of the last successful exchange/ping with the peer.
    pub last_ok_ts: Option<u64>,
    /// Measured round-trip of the last successful push, in milliseconds.
    pub rtt_ms: Option<u64>,
}

/// Liveness map keyed by member name.
pub struct PeerHealth {
    inner: AssocMap<String, PeerHealthEntry>,
}

impl View for PeerHealth {
    type V = Map<Seq<char>, PeerHealthEntry>;

    closed spec fn view(&self) -> Map<Seq<char>, PeerHealthEntry> {
        self.inner.map()
    }
}

impl PeerHealth {
    pub closed spec fn wf(&self) -> bool {
        self.inner.wf()
    }

    pub fn new() -> (r: Self)
        ensures
            r.wf(),
            r@ == Map::<Seq<char>, PeerHealthEntry>::empty(),
    {
        PeerHealth { inner: AssocMap::new() }
    }

    /// Record a successful round-trip with `peer` at `now`.
    pub fn mark_ok_at(&mut self, peer: &str, rtt_ms: u64, now: u64)
        requires
            old(self).wf(),
        ensures
            final(self).wf(),
            final(self)@ == old(self)@.insert(peer@, PeerHealthEntry { last_ok_ts: Some(now), rtt_ms: Some(rtt_ms) }),
    {
        self.inner.insert(String::from_str(peer), PeerHealthEntry { last_ok_ts: Some(now), rtt_ms: Some(rtt_ms) });
    }

    /// Record a successful round-trip with `peer`, stamped with the wall
    /// clock.
    pub fn mark_ok(&mut self, peer: &str, rtt_ms: u64)
        requires
            old(self).wf(),
        ensures
            final(self).wf(),
            exists|now: u64|
                final(self)@ == old(self)@.insert(peer@, PeerHealthEntry { last_ok_ts: Some(now), rtt_ms: Some(rtt_ms) }),
    {
        let now = crate::clock::wall_clock_secs();
        self.mark_ok_at(peer, rtt_ms, now);
    }

    /// All known peer entries (name -> health), each peer once.
    pub fn snapshot(&self) -> (r: Vec<(String, PeerHealthEntry)>)
        requires
            self.wf(),
        ensures
            forall|i: int| 0 <= i < r@.len() ==> #[trigger] self@.contains_key(r@[i].0@) && self@[r@[i].0@] == r@[i].1,
            forall|p: Seq<char>| #[trigger] self@.contains_key(p) ==> exists|i: int| 0 <= i < r@.len() && #[trigger] r@[i].0@ == p,
            forall|i: int, j: int| 0 <= i < j < r@.len() ==> r@[i].0@ != r@[j].0@,
    {
        let mut out: Vec<(String, PeerHealthEntry)> = Vec::new();
        let n = self.inner.len();
        let mut i: usize = 0;
        while i < n
            invariant
                self.wf(),
                n == self.inner.seq().len(),
                i <= n,
                out@.len() == i,
                forall|j: int| 0 <= j < i ==> #[trigger] out@[j].0@ == self.inner.key_at(j) && out@[j].1 == self.inner.seq()[j].1,
            decreases n - i,
        {
            let e = self.inner.entry(i);
            out.push((e.0.clone(), e.1));
            i = i + 1;
        }
        proof {
            assert forall|j: int| 0 <= j < out@.len() implies #[trigger] self@.contains_key(out@[j].0@) && self@[out@[j].0@] == out@[j].1 by {
                self.inner.lemma_index_of(j);
            }
            assert forall|p: Seq<char>| #[trigger] self@.contains_key(p) implies exists|j: int| 0 <= j < out@.len() && #[trigger] out@[j].0@ == p by {
                self.inner.lemma_map_domain();
                let j = self.inner.index_of(p);
                assert(out@[j].0@ == p);
            }
        }
        out
    }
}

} // verus!
