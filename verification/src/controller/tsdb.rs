//! Miniature replicated time-series store (the raw-sample layer).
//!
//! Appends one raw sample per ingested quality report and replicates raw
//! samples across the cluster through the anti-entropy gossip loop. Each
//! directed link has exactly one producer (the probing agent), so per-link
//! timestamps are monotonic: a sample not newer than the last one seen for
//! its link is a resend and is dropped, which makes gossip merges idempotent.
//!
//! The measurement values travel as `D` and are never read here; the 60 s
//! min/avg/max rollups over them, and the durable copy, live with the caller.

use crate::assoc::AssocMap;
use crate::controller::model::{LinkKey, LinkKeyView, ProbeState};
use vstd::prelude::*;
use vstd::string::StrSliceExecFns;

verus! {

/// Length of a per-link aggregate bucket, in seconds.
pub const BUCKET_SECS: u64 = 60;

/// Bound of a per-link raw ring (the retention window at the 15 s cadence, three times over).
pub const RAW_RING_CAP: usize = 1440;

/// How many samples a single gossip delta may carry.
pub const DELTA_LIMIT: usize = 2000;

/// One ingested measurement. Timestamps are whole seconds.
#[derive(Debug, Clone, Copy)]
pub struct RawSample<D> {
    pub ts: u64,
    pub rtt_ms: Option<D>,
    pub loss_pct: Option<D>,
    pub rr_tps: Option<D>,
    pub tcp_mbps: Option<D>,
    /// Link utilization at the probe moment (Mbps).
    pub util_mbps: D,
    /// `ProbeState` code (0 quiet, 1 busy, 2 conflict).
    pub state: u8,
}

impl<D> RawSample<D> {
    /// A sample from its dimensions and probe state.
    pub fn from_dims(
        state: ProbeState,
        ts: u64,
        rtt_ms: Option<D>,
        loss_pct: Option<D>,
        rr_tps: Option<D>,
        tcp_mbps: Option<D>,
        util_mbps: D,
    ) -> (r: Self)
        ensures
            r == (RawSample { ts, rtt_ms, loss_pct, rr_tps, tcp_mbps, util_mbps, state: state_code_spec(state) }),
    {
        RawSample { ts, rtt_ms, loss_pct, rr_tps, tcp_mbps, util_mbps, state: state_code(state) }
    }
}

pub open spec fn state_code_spec(s: ProbeState) -> u8 {
    match s {
        ProbeState::Quiet => 0,
        ProbeState::Busy => 1,
        ProbeState::Conflict => 2,
    }
}

pub open spec fn code_to_state_spec(code: u8) -> ProbeState {
    if code == 0 {
        ProbeState::Quiet
    } else if code == 1 {
        ProbeState::Busy
    } else {
        ProbeState::Conflict
    }
}

pub fn state_code(s: ProbeState) -> (r: u8)
    ensures
        r == state_code_spec(s),
{
    match s {
        ProbeState::Quiet => 0,
        ProbeState::Busy => 1,
        ProbeState::Conflict => 2,
    }
}

pub fn code_to_state(code: u8) -> (r: ProbeState)
    ensures
        r == code_to_state_spec(code),
{
    match code {
        0 => ProbeState::Quiet,
        1 => ProbeState::Busy,
        _ => ProbeState::Conflict,
    }
}

/// Encoding a probe state and decoding it gives it back.
pub proof fn law_state_code_roundtrip(s: ProbeState)
    ensures
        code_to_state_spec(state_code_spec(s)) == s,
{
}

/// Start of the bucket holding `ts`.
pub open spec fn bucket_of(ts: u64) -> u64 {
    (ts - ts % BUCKET_SECS) as u64
}

pub fn bucket_start(ts: u64) -> (r: u64)
    ensures
        r == bucket_of(ts),
        r <= ts,
        r % BUCKET_SECS == 0,
        ts - r < BUCKET_SECS,
{
    ts - ts % BUCKET_SECS
}

/// Window-collapse parameters (see `config::Classifier`).
#[derive(Debug, Clone, Copy)]
pub struct WindowSpec {
    /// Freshness window for rtt/loss/rr (seconds).
    pub always_fresh_secs: u64,
    /// Primary fresh window for tcp throughput (seconds).
    pub tcp_fresh_secs: u64,
    /// Hard horizon for carrying the last-known tcp value (seconds).
    pub tcp_carry_secs: u64,
}

/// A per-link collapse of the recent raw-sample window. A gap is `None`, and
/// a dimension past its freshness window is not carried.
#[derive(Debug, Clone, Copy)]
pub struct WindowView<D> {
    /// Timestamp of the most recent sample folded in.
    pub ts: u64,
    /// State of the most recent sample.
    pub state: ProbeState,
    pub rtt_ms: Option<D>,
    pub loss_pct: Option<D>,
    pub rr_tps: Option<D>,
    /// RTT jitter; raw samples carry none, so the collapse leaves it unset.
    pub jitter_ms: Option<D>,
    /// Most recent throughput within `tcp_fresh_secs`, else the last-known
    /// value carried within `tcp_carry_secs`.
    pub tcp_mbps: Option<D>,
    pub util_mbps: D,
    /// True when `tcp_mbps` was carried from beyond its primary fresh window
    /// (still within the carry horizon).
    pub tcp_carried: bool,
}

/// Which measurement dimension of a sample.
#[derive(Clone, Copy)]
pub enum Dim {
    Rtt,
    Loss,
    Rr,
    Tcp,
}

pub open spec fn dim_of<D>(s: RawSample<D>, d: Dim) -> Option<D> {
    match d {
        Dim::Rtt => s.rtt_ms,
        Dim::Loss => s.loss_pct,
        Dim::Rr => s.rr_tps,
        Dim::Tcp => s.tcp_mbps,
    }
}

/// Age of a sample at `now` (0 for a sample from the future).
pub open spec fn age(now: u64, ts: u64) -> int {
    if now >= ts {
        now - ts
    } else {
        0
    }
}

/// Index of the most recent sample that sets `d`, looking back from the
/// newest sample and stopping at the first one older than `horizon`.
pub open spec fn latest_within<D>(ring: Seq<RawSample<D>>, now: u64, horizon: u64, d: Dim) -> Option<int>
    decreases ring.len(),
{
    if ring.len() == 0 {
        None
    } else if age(now, ring.last().ts) > horizon {
        None
    } else if dim_of(ring.last(), d) is Some {
        Some(ring.len() - 1)
    } else {
        latest_within(ring.drop_last(), now, horizon, d)
    }
}

pub open spec fn value_within<D>(ring: Seq<RawSample<D>>, now: u64, horizon: u64, d: Dim) -> Option<D> {
    match latest_within(ring, now, horizon, d) {
        Some(i) => dim_of(ring[i], d),
        None => None,
    }
}

/// The classifier's view of a ring (see `Tsdb::window`).
pub open spec fn collapse<D>(ring: Seq<RawSample<D>>, spec: WindowSpec, now: u64) -> Option<WindowView<D>> {
    if ring.len() == 0 || age(now, ring.last().ts) > spec.tcp_carry_secs {
        None
    } else {
        let newest = ring.last();
        let tcp_at = latest_within(ring, now, spec.tcp_carry_secs, Dim::Tcp);
        Some(
            WindowView {
                ts: newest.ts,
                state: code_to_state_spec(newest.state),
                rtt_ms: value_within(ring, now, spec.always_fresh_secs, Dim::Rtt),
                loss_pct: value_within(ring, now, spec.always_fresh_secs, Dim::Loss),
                rr_tps: value_within(ring, now, spec.always_fresh_secs, Dim::Rr),
                jitter_ms: None,
                tcp_mbps: value_within(ring, now, spec.tcp_carry_secs, Dim::Tcp),
                util_mbps: newest.util_mbps,
                tcp_carried: match tcp_at {
                    Some(i) => age(now, ring[i].ts) > spec.tcp_fresh_secs,
                    None => false,
                },
            },
        )
    }
}

/// Samples of `ring` with `since <= ts < until`, in order.
pub open spec fn in_range<D>(ring: Seq<RawSample<D>>, since: u64, until: u64) -> Seq<RawSample<D>>
    decreases ring.len(),
{
    if ring.len() == 0 {
        Seq::empty()
    } else {
        let before = in_range(ring.drop_last(), since, until);
        if since <= ring.last().ts < until {
            before.push(ring.last())
        } else {
            before
        }
    }
}

/// The samples of an ascending ring in a time range are ascending, and none
/// is newer than the ring's newest.
pub proof fn lemma_in_range_ascending<D>(ring: Seq<RawSample<D>>, since: u64, until: u64)
    requires
        ascending(ring),
    ensures
        ascending(in_range(ring, since, until)),
        ring.len() > 0 ==> forall|i: int| 0 <= i < in_range(ring, since, until).len() ==> (#[trigger] in_range(ring, since, until)[i]).ts
            <= ring.last().ts,
    decreases ring.len(),
{
    if ring.len() > 0 {
        let p = ring.drop_last();
        assert(ascending(p)) by {
            assert forall|i: int, j: int| 0 <= i < j < p.len() implies (#[trigger] p[i]).ts < (#[trigger] p[j]).ts by {
                assert(p[i] == ring[i] && p[j] == ring[j]);
            }
        }
        lemma_in_range_ascending(p, since, until);
        let b = in_range(p, since, until);
        if p.len() > 0 {
            assert(p.last() == ring[ring.len() - 2]);
            assert(p.last().ts < ring.last().ts);
        } else {
            assert(b.len() == 0);
        }
    }
}

/// Strictly increasing timestamps.
pub open spec fn ascending<D>(ring: Seq<RawSample<D>>) -> bool {
    forall|i: int, j: int| 0 <= i < j < ring.len() ==> (#[trigger] ring[i]).ts < (#[trigger] ring[j]).ts
}

/// The store as plain values.
pub struct TsdbView<D> {
    /// link -> its raw samples, oldest first.
    pub rings: Map<LinkKeyView, Seq<RawSample<D>>>,
    /// (seq, link, sample) in ingest order — the gossip delta source.
    pub recent: Seq<(u64, LinkKeyView, RawSample<D>)>,
    /// peer -> highest local sample seq it has been sent.
    pub sent: Map<Seq<char>, u64>,
    /// The seq the next ingested sample gets.
    pub next_seq: u64,
    /// Samples not yet written to the durable copy.
    pub pending: Seq<(LinkKeyView, RawSample<D>)>,
}

/// Whether an ingest of `s` on `link` is taken: the link has no sample yet
/// or `s` is newer than its newest.
pub open spec fn takes<D>(m: TsdbView<D>, link: LinkKeyView, s: RawSample<D>) -> bool {
    !m.rings.contains_key(link) || m.rings[link].last().ts < s.ts
}

/// The store after ingesting `s` on `link` (`persist`: keep a durable copy).
pub open spec fn ingested<D>(m: TsdbView<D>, persist: bool, link: LinkKeyView, s: RawSample<D>) -> TsdbView<D> {
    if !takes(m, link, s) {
        m
    } else {
        let ring = if m.rings.contains_key(link) { m.rings[link] } else { Seq::empty() };
        let grown = ring.push(s);
        TsdbView {
            rings: m.rings.insert(link, if grown.len() > RAW_RING_CAP { grown.drop_first() } else { grown }),
            recent: m.recent.push((m.next_seq, link, s)),
            sent: m.sent,
            next_seq: if m.next_seq < u64::MAX { (m.next_seq + 1) as u64 } else { u64::MAX },
            pending: if persist { m.pending.push((link, s)) } else { m.pending },
        }
    }
}

/// The store after ingesting a batch, first to last.
pub open spec fn merged<D>(m: TsdbView<D>, persist: bool, batch: Seq<(LinkKeyView, RawSample<D>)>) -> TsdbView<D>
    decreases batch.len(),
{
    if batch.len() == 0 {
        m
    } else {
        ingested(merged(m, persist, batch.drop_last()), persist, batch.last().0, batch.last().1)
    }
}

/// The first `limit` samples with seq past `after`, given non-decreasing seqs.
pub open spec fn delta_after<D>(recent: Seq<(u64, LinkKeyView, RawSample<D>)>, after: u64, limit: nat) -> Seq<(u64, LinkKeyView, RawSample<D>)> {
    let start = first_after(recent, after);
    recent.subrange(start, if start + limit < recent.len() { start + limit } else { recent.len() as int })
}

/// Index of the first entry whose seq is past `after` (or the length).
pub open spec fn first_after<D>(recent: Seq<(u64, LinkKeyView, RawSample<D>)>, after: u64) -> int
    decreases recent.len(),
{
    if recent.len() == 0 {
        0
    } else if recent.last().0 <= after {
        recent.len() as int
    } else {
        first_after(recent.drop_last(), after)
    }
}

pub open spec fn seqs_sorted<D>(recent: Seq<(u64, LinkKeyView, RawSample<D>)>) -> bool {
    forall|i: int, j: int| 0 <= i <= j < recent.len() ==> (#[trigger] recent[i]).0 <= (#[trigger] recent[j]).0
}

/// Thread-safe store handed to the API/gossip paths (the locking lives with
/// the caller).
pub struct Tsdb<D> {
    raw_retention_secs: u64,
    persist: bool,
    seq: u64,
    by_link: AssocMap<LinkKey, Vec<RawSample<D>>>,
    recent: Vec<(u64, LinkKey, RawSample<D>)>,
    sent: AssocMap<String, u64>,
    pending: Vec<(LinkKey, RawSample<D>)>,
}

pub open spec fn entry_view<D>(e: (u64, LinkKey, RawSample<D>)) -> (u64, LinkKeyView, RawSample<D>) {
    (e.0, e.1@, e.2)
}

impl<D> View for Tsdb<D> {
    type V = TsdbView<D>;

    closed spec fn view(&self) -> TsdbView<D> {
        TsdbView {
            rings: self.rings(),
            recent: self.recent_seq(),
            sent: self.sent.map(),
            next_seq: self.seq,
            pending: self.pending@.map_values(|e: (LinkKey, RawSample<D>)| (e.0@, e.1)),
        }
    }
}

impl<D> Tsdb<D> {
    pub closed spec fn rings(&self) -> Map<LinkKeyView, Seq<RawSample<D>>> {
        self.by_link.map().map_values(|r: Vec<RawSample<D>>| r@)
    }

    pub closed spec fn recent_seq(&self) -> Seq<(u64, LinkKeyView, RawSample<D>)> {
        self.recent@.map_values(|e: (u64, LinkKey, RawSample<D>)| entry_view(e))
    }
}

impl<D: Copy> Tsdb<D> {
    /// Rings are non-empty, strictly ascending in time and bounded; seqs
    /// never decrease and stay below the next seq.
    pub closed spec fn wf(&self) -> bool {
        &&& self.by_link.wf()
        &&& self.sent.wf()
        &&& forall|k: LinkKeyView| #[trigger] self.rings().contains_key(k) ==> {
            &&& self.rings()[k].len() > 0
            &&& self.rings()[k].len() <= RAW_RING_CAP
            &&& ascending(self.rings()[k])
        }
        &&& seqs_sorted(self.recent_seq())
        &&& forall|i: int| 0 <= i < self.recent_seq().len() ==> (#[trigger] self.recent_seq()[i]).0 <= self.seq
    }

    /// Whether the store keeps a durable copy.
    pub closed spec fn persists(&self) -> bool {
        self.persist
    }

    pub closed spec fn retention(&self) -> u64 {
        self.raw_retention_secs
    }

    /// Every well-formed store keeps each link's samples non-empty, at most
    /// `RAW_RING_CAP` long and strictly ascending in time (every operation
    /// keeps the store well-formed).
    pub proof fn law_rings_ascending(&self)
        requires
            self.wf(),
        ensures
            forall|k: LinkKeyView| #[trigger] self@.rings.contains_key(k) ==> {
                &&& self@.rings[k].len() > 0
                &&& self@.rings[k].len() <= RAW_RING_CAP
                &&& ascending(self@.rings[k])
            },
    {
    }

    proof fn lemma_rings(&self)
        requires
            self.wf(),
        ensures
            forall|k: LinkKeyView| #[trigger] self@.rings.contains_key(k) <==> self.by_link.map().contains_key(k),
            forall|k: LinkKeyView| #[trigger] self@.rings.contains_key(k) ==> self@.rings[k] == self.by_link.map()[k]@,
            forall|j: int| 0 <= j < self.by_link.seq().len() ==> {
                let ring = (#[trigger] self.by_link.seq()[j]).1@;
                &&& ring.len() > 0
                &&& ring.len() <= RAW_RING_CAP
                &&& ascending(ring)
                &&& self@.rings.contains_key(self.by_link.key_at(j))
                &&& self@.rings[self.by_link.key_at(j)] == ring
            },
    {
        assert forall|j: int| 0 <= j < self.by_link.seq().len() implies {
                let ring = (#[trigger] self.by_link.seq()[j]).1@;
                &&& ring.len() > 0
                &&& ring.len() <= RAW_RING_CAP
                &&& ascending(ring)
                &&& self@.rings.contains_key(self.by_link.key_at(j))
                &&& self@.rings[self.by_link.key_at(j)] == ring
            } by {
            self.by_link.lemma_index_of(j);
            let k = self.by_link.key_at(j);
            assert(self.rings().contains_key(k));
            assert(self.rings()[k] == self.by_link.seq()[j].1@);
        }
    }

    pub fn new(cfg: &crate::controller::config::TsConfig) -> (r: Self)
        ensures
            r.wf(),
            r@.rings == Map::<LinkKeyView, Seq<RawSample<D>>>::empty(),
            r@.recent.len() == 0,
            r@.sent == Map::<Seq<char>, u64>::empty(),
            r@.pending.len() == 0,
            r@.next_seq == 1,
            r.persists() == (cfg.path@.len() > 0),
            r.retention() == cfg.raw_retention_secs,
    {
        let r = Tsdb {
            raw_retention_secs: cfg.raw_retention_secs,
            persist: !cfg.path.as_str().is_empty(),
            seq: 1,
            by_link: AssocMap::new(),
            recent: Vec::new(),
            sent: AssocMap::new(),
            pending: Vec::new(),
        };
        assert(r@.rings =~= Map::<LinkKeyView, Seq<RawSample<D>>>::empty());
        r
    }

    /// Core ingest: accept a sample newer than its link's last one (a
    /// resend or an out-of-order sample is dropped). Returns whether the
    /// sample was taken.
    pub fn ingest(&mut self, link: &LinkKey, s: RawSample<D>) -> (r: bool)
        requires
            old(self).wf(),
        ensures
            final(self).wf(),
            final(self).persists() == old(self).persists(),
            final(self).retention() == old(self).retention(),
            r == takes(old(self)@, link@, s),
            final(self)@ == ingested(old(self)@, old(self).persists(), link@, s),
    {
        proof {
            self.lemma_rings();
        }
        let pos = self.by_link.find(link);
        let ghost old_rings = self@.rings;
        match pos {
            Some(i) => {
                proof {
                    self.by_link.lemma_index_of(i as int);
                    assert(self.by_link.seq()[i as int].1@ == old_rings[link@]);
                }
                let n = self.by_link.entry(i).1.len();
                if self.by_link.entry(i).1[n - 1].ts >= s.ts {
                    return false;
                }
                let mut ring = self.by_link.replace_at(i, Vec::new());
                let ghost before = ring@;
                ring.push(s);
                if ring.len() > RAW_RING_CAP {
                    ring.remove(0);
                }
                let ghost after = ring@;
                self.by_link.replace_at(i, ring);
                proof {
                    self.by_link.lemma_index_of(i as int);
                    assert(before == old_rings[link@]);
                    assert(self@.rings =~= old_rings.insert(link@, after));
                    assert(ascending(after)) by {
                        assert forall|a: int, b: int| 0 <= a < b < after.len() implies (#[trigger] after[a]).ts < (#[trigger] after[b]).ts by {
                            if before.push(s).len() > RAW_RING_CAP {
                                assert(after[a] == before.push(s)[a + 1]);
                                assert(after[b] == before.push(s)[b + 1]);
                                if b + 1 < before.len() {
                                } else {
                                    assert(before[a + 1].ts <= before.last().ts);
                                }
                            } else {
                                if b < before.len() {
                                } else {
                                    assert(before[a].ts <= before.last().ts);
                                }
                            }
                        }
                    }
                }
            },
            None => {
                let mut ring: Vec<RawSample<D>> = Vec::new();
                ring.push(s);
                self.by_link.insert(link.clone(), ring);
                proof {
                    assert(self@.rings =~= old_rings.insert(link@, seq![s]));
                    assert(seq![s] == Seq::<RawSample<D>>::empty().push(s));
                }
            },
        }
        let seq = self.seq;
        self.seq = self.seq.saturating_add(1);
        let ghost old_recent = self@.recent;
        self.recent.push((seq, link.clone(), s));
        proof {
            assert(self@.recent =~= old_recent.push((seq, link@, s)));
        }
        if self.persist {
            let ghost old_pending = self@.pending;
            self.pending.push((link.clone(), s));
            proof {
                assert(self@.pending =~= old_pending.push((link@, s)));
            }
        }
        proof {
            assert(self@.rings == ingested(old(self)@, old(self).persists(), link@, s).rings);
            assert(self@ =~= ingested(old(self)@, old(self).persists(), link@, s));
        }
        true
    }

    /// Append a locally-ingested sample (probe reply or POST /v1/quality).
    pub fn append(&mut self, link: &LinkKey, s: RawSample<D>) -> (r: bool)
        requires
            old(self).wf(),
        ensures
            final(self).wf(),
            final(self).persists() == old(self).persists(),
            final(self).retention() == old(self).retention(),
            r == takes(old(self)@, link@, s),
            final(self)@ == ingested(old(self)@, old(self).persists(), link@, s),
            r ==> final(self)@.rings.contains_key(link@) && final(self)@.rings[link@].last() == s,
    {
        let r = self.ingest(link, s);
        proof {
            if r {
                let ring = if old(self)@.rings.contains_key(link@) { old(self)@.rings[link@] } else { Seq::empty() };
                let grown = ring.push(s);
                assert(grown.last() == s);
                if grown.len() > RAW_RING_CAP {
                    assert(grown.drop_first().last() == s);
                }
            }
        }
        r
    }

    /// Merge samples replicated from a peer (idempotent: a sample already
    /// seen for its link is dropped). Returns which samples were taken.
    pub fn merge_delta(&mut self, samples: &[(LinkKey, RawSample<D>)]) -> (accepted: Vec<bool>)
        requires
            old(self).wf(),
        ensures
            final(self).wf(),
            final(self).persists() == old(self).persists(),
            final(self).retention() == old(self).retention(),
            accepted@.len() == samples@.len(),
            final(self)@ == merged(old(self)@, old(self).persists(), samples@.map_values(|e: (LinkKey, RawSample<D>)| (e.0@, e.1))),
            forall|i: int| 0 <= i < samples@.len() ==> #[trigger] accepted@[i] == takes(
                merged(old(self)@, old(self).persists(), samples@.map_values(|e: (LinkKey, RawSample<D>)| (e.0@, e.1)).take(i)),
                samples@[i].0@,
                samples@[i].1,
            ),
    {
        let ghost batch = samples@.map_values(|e: (LinkKey, RawSample<D>)| (e.0@, e.1));
        let ghost persist = self.persists();
        let mut accepted: Vec<bool> = Vec::new();
        let mut i: usize = 0;
        while i < samples.len()
            invariant
                self.wf(),
                self.persists() == persist,
                persist == old(self).persists(),
                self.retention() == old(self).retention(),
                batch == samples@.map_values(|e: (LinkKey, RawSample<D>)| (e.0@, e.1)),
                i <= samples@.len(),
                accepted@.len() == i,
                self@ == merged(old(self)@, persist, batch.take(i as int)),
                forall|j: int| 0 <= j < i ==> #[trigger] accepted@[j] == takes(merged(old(self)@, persist, batch.take(j)), samples@[j].0@, samples@[j].1),
            decreases samples@.len() - i,
        {
            let ok = self.ingest(&samples[i].0, samples[i].1);
            accepted.push(ok);
            proof {
                assert(batch.take(i + 1).drop_last() =~= batch.take(i as int));
                assert(batch.take(i + 1).last() == batch[i as int]);
            }
            i = i + 1;
        }
        proof {
            assert(batch.take(samples@.len() as int) =~= batch);
        }
        accepted
    }

    /// Index of the first log entry past `after`.
    fn start_after(&self, after: u64) -> (r: usize)
        requires
            self.wf(),
        ensures
            r == first_after(self@.recent, after),
            r <= self@.recent.len(),
    {
        let n = self.recent.len();
        let ghost rv = self@.recent;
        let mut start: usize = n;
        proof {
            assert(rv.take(n as int) =~= rv);
        }
        while start > 0 && self.recent[start - 1].0 > after
            invariant
                rv == self@.recent,
                rv == self.recent_seq(),
                n == rv.len(),
                n == self.recent@.len(),
                start <= n,
                first_after(rv, after) == first_after(rv.take(start as int), after),
            decreases start,
        {
            proof {
                assert(rv[start - 1] == entry_view(self.recent@[start - 1]));
                assert(rv.take(start as int).last() == rv[start - 1]);
                assert(rv.take(start as int).drop_last() =~= rv.take(start - 1));
            }
            start = start - 1;
        }
        proof {
            if start > 0 {
                assert(rv[start - 1] == entry_view(self.recent@[start - 1]));
                assert(rv.take(start as int).last() == rv[start - 1]);
            } else {
                assert(rv.take(0).len() == 0);
            }
        }
        start
    }

    /// Samples with seq > `after` (max `limit`), plus the seq of the last one
    /// taken (`after` when none is). The caller advances the per-peer
    /// watermark with `note_sent`.
    pub fn take_delta(&self, after: u64, limit: usize) -> (r: (Vec<(u64, LinkKey, RawSample<D>)>, u64))
        requires
            self.wf(),
        ensures
            r.0@.map_values(|e: (u64, LinkKey, RawSample<D>)| entry_view(e)) == delta_after(self@.recent, after, limit as nat),
            r.1 == (if r.0@.len() == 0 { after } else { r.0@.last().0 }),
            forall|i: int| 0 <= i < r.0@.len() ==> (#[trigger] r.0@[i]).0 > after,
    {
        let ghost rv = self@.recent;
        let n = self.recent.len();
        let start = self.start_after(after);
        proof {
            lemma_first_after(rv, after);
        }
        let end = if n - start > limit { start + limit } else { n };
        let mut out: Vec<(u64, LinkKey, RawSample<D>)> = Vec::new();
        let mut last = after;
        let mut i = start;
        while i < end
            invariant
                rv == self.recent_seq(),
                n == self.recent@.len(),
                start <= i <= end <= n,
                n == rv.len(),
                forall|j: int| start <= j < n ==> (#[trigger] rv[j]).0 > after,
                out@.map_values(|e: (u64, LinkKey, RawSample<D>)| entry_view(e)) == rv.subrange(start as int, i as int),
                last == (if i == start { after } else { rv[i - 1].0 }),
            decreases end - i,
        {
            let e = &self.recent[i];
            let ghost prev = out@;
            let item = (e.0, e.1.clone(), e.2);
            proof {
                assert(entry_view(item) == rv[i as int]);
            }
            out.push(item);
            last = e.0;
            proof {
                assert(out@ == prev.push(item));
                assert(out@.map_values(|e: (u64, LinkKey, RawSample<D>)| entry_view(e)) =~= prev.map_values(|e: (u64, LinkKey, RawSample<D>)| entry_view(e)).push(entry_view(item)));
                assert(rv.subrange(start as int, i + 1) =~= rv.subrange(start as int, i as int).push(rv[i as int]));
            }
            i = i + 1;
        }
        proof {
            assert(out@.map_values(|e: (u64, LinkKey, RawSample<D>)| entry_view(e)).len() == end - start);
            if out@.len() > 0 {
                assert(entry_view(out@.last()) == out@.map_values(|e: (u64, LinkKey, RawSample<D>)| entry_view(e))[out@.len() - 1]);
            }
            assert forall|j: int| 0 <= j < out@.len() implies (#[trigger] out@[j]).0 > after by {
                assert(entry_view(out@[j]) == out@.map_values(|e: (u64, LinkKey, RawSample<D>)| entry_view(e))[j]);
                assert(entry_view(out@[j]) == rv[start + j]);
            }
        }
        (out, last)
    }

    pub fn sent_watermark(&self, peer: &str) -> (r: u64)
        requires
            self.wf(),
        ensures
            r == (if self@.sent.contains_key(peer@) { self@.sent[peer@] } else { 0 }),
    {
        match self.sent.get(&String::from_str(peer)) {
            Some(w) => *w,
            None => 0,
        }
    }

    pub fn note_sent(&mut self, peer: &str, watermark: u64)
        requires
            old(self).wf(),
        ensures
            final(self).wf(),
            final(self).persists() == old(self).persists(),
            final(self).retention() == old(self).retention(),
            final(self)@ == (TsdbView { sent: old(self)@.sent.insert(peer@, watermark), ..old(self)@ }),
    {
        self.sent.insert(String::from_str(peer), watermark);
        assert(self.rings() == old(self).rings());
        assert(self.recent_seq() == old(self).recent_seq());
    }

    /// Raw samples in `[since, until)` for a link.
    pub fn query(&self, link: &LinkKey, since: u64, until: u64) -> (r: Vec<RawSample<D>>)
        requires
            self.wf(),
        ensures
            r@ == (if self@.rings.contains_key(link@) { in_range(self@.rings[link@], since, until) } else { Seq::empty() }),
            ascending(r@),
    {
        proof {
            self.lemma_rings();
            if self@.rings.contains_key(link@) {
                self.law_rings_ascending();
                lemma_in_range_ascending(self@.rings[link@], since, until);
            }
        }
        let mut out: Vec<RawSample<D>> = Vec::new();
        match self.by_link.get(link) {
            Some(ring) => {
                let mut i: usize = 0;
                proof {
                    assert(ring@.take(0) =~= Seq::<RawSample<D>>::empty());
                }
                while i < ring.len()
                    invariant
                        i <= ring@.len(),
                        out@ == in_range(ring@.take(i as int), since, until),
                    decreases ring@.len() - i,
                {
                    let s = ring[i];
                    if s.ts >= since && s.ts < until {
                        out.push(s);
                    }
                    proof {
                        assert(ring@.take(i + 1).drop_last() =~= ring@.take(i as int));
                        assert(ring@.take(i + 1).last() == s);
                    }
                    i = i + 1;
                }
                proof {
                    assert(ring@.take(ring@.len() as int) =~= ring@);
                }
            },
            None => {},
        }
        out
    }

    /// All links with at least one sample in memory.
    pub fn links(&self) -> (r: Vec<LinkKey>)
        requires
            self.wf(),
        ensures
            forall|i: int| 0 <= i < r@.len() ==> #[trigger] self@.rings.contains_key(r@[i]@),
            forall|k: LinkKeyView| #[trigger] self@.rings.contains_key(k) ==> exists|i: int| 0 <= i < r@.len() && #[trigger] r@[i]@ == k,
            forall|i: int, j: int| 0 <= i < j < r@.len() ==> r@[i]@ != r@[j]@,
    {
        proof {
            self.lemma_rings();
        }
        let mut out: Vec<LinkKey> = Vec::new();
        let n = self.by_link.len();
        let mut i: usize = 0;
        while i < n
            invariant
                self.wf(),
                n == self.by_link.seq().len(),
                i <= n,
                out@.len() == i,
                forall|j: int| 0 <= j < i ==> #[trigger] out@[j]@ == self.by_link.key_at(j),
            decreases n - i,
        {
            out.push(self.by_link.entry(i).0.clone());
            i = i + 1;
        }
        proof {
            assert forall|j: int| 0 <= j < out@.len() implies #[trigger] self@.rings.contains_key(out@[j]@) by {
                self.by_link.lemma_index_of(j);
            }
            assert forall|k: LinkKeyView| #[trigger] self@.rings.contains_key(k) implies exists|j: int| 0 <= j < out@.len() && #[trigger] out@[j]@ == k by {
                self.by_link.lemma_map_domain();
                let j = self.by_link.index_of(k);
                assert(out@[j]@ == k);
            }
        }
        out
    }

    /// Drop memory-ring samples older than the raw retention window at `now`.
    pub fn prune(&mut self, now: u64)
        requires
            old(self).wf(),
        ensures
            final(self).wf(),
            final(self).persists() == old(self).persists(),
            final(self).retention() == old(self).retention(),
            ({
                let cut = (if now >= old(self).retention() { now - old(self).retention() } else { 0 }) as u64;
                &&& forall|k: LinkKeyView| #[trigger] final(self)@.rings.contains_key(k) <==> (old(self)@.rings.contains_key(k)
                    && old(self)@.rings[k].last().ts >= cut)
                &&& forall|k: LinkKeyView| #[trigger] final(self)@.rings.contains_key(k) ==> {
                    let ring = old(self)@.rings[k];
                    exists|c: int| 0 <= c < ring.len() && final(self)@.rings[k] == ring.subrange(c, ring.len() as int)
                        && (forall|j: int| 0 <= j < c ==> (#[trigger] ring[j]).ts < cut)
                        && (forall|j: int| c <= j < ring.len() ==> (#[trigger] ring[j]).ts >= cut)
                }
                &&& exists|c: int| 0 <= c <= old(self)@.recent.len() && final(self)@.recent == old(self)@.recent.subrange(c, old(self)@.recent.len() as int)
                    && (forall|j: int| 0 <= j < c ==> (#[trigger] old(self)@.recent[j]).2.ts < cut)
                    && (c < old(self)@.recent.len() ==> old(self)@.recent[c].2.ts >= cut)
                &&& final(self)@.sent == old(self)@.sent
            }),
    {
        let raw_cut = now.saturating_sub(self.raw_retention_secs);
        let ghost old_view = self@;
        proof {
            self.lemma_rings();
        }
        let ghost old_len = self.by_link.seq().len();
        // Trim each ring's expired head, then drop the rings left empty.
        let n = self.by_link.len();
        let mut keep: Vec<bool> = Vec::new();
        let mut i: usize = 0;
        while i < n
            invariant
                self.by_link.wf(),
                self.sent.wf(),
                n == self.by_link.seq().len(),
                n == old(self).by_link.seq().len(),
                old(self).wf(),
                i <= n,
                keep@.len() == i,
                old_view == old(self)@,
                self.sent == old(self).sent,
                self.recent == old(self).recent,
                self.seq == old(self).seq,
                self.raw_retention_secs == old(self).raw_retention_secs,
                self.persist == old(self).persist,
                self.pending == old(self).pending,
                forall|j: int| 0 <= j < n ==> (#[trigger] self.by_link.key_at(j)) == old(self).by_link.key_at(j),
                forall|j: int| i <= j < n ==> (#[trigger] self.by_link.seq()[j]) == old(self).by_link.seq()[j],
                forall|j: int| 0 <= j < i ==> {
                    let ring = (#[trigger] old(self).by_link.seq()[j]).1@;
                    let now_ring = self.by_link.seq()[j].1@;
                    &&& keep@[j] == (ring.last().ts >= raw_cut)
                    &&& exists|c: int| 0 <= c <= ring.len() && now_ring == ring.subrange(c, ring.len() as int)
                        && (forall|t: int| 0 <= t < c ==> (#[trigger] ring[t]).ts < raw_cut)
                        && (forall|t: int| c <= t < ring.len() ==> (#[trigger] ring[t]).ts >= raw_cut)
                },
                forall|j: int| 0 <= j < n ==> {
                    let ring = (#[trigger] old(self).by_link.seq()[j]).1@;
                    ring.len() > 0 && ascending(ring) && ring.len() <= RAW_RING_CAP
                },
            decreases n - i,
        {
            proof {
                old(self).lemma_rings();
            }
            let ghost mid = self.by_link;
            let mut ring = self.by_link.replace_at(i, Vec::new());
            let ghost orig = ring@;
            assert(orig == old(self).by_link.seq()[i as int].1@);
            let mut c: usize = 0;
            while c < ring.len() && ring[c].ts < raw_cut
                invariant
                    c <= ring@.len(),
                    ring@ == orig,
                    forall|t: int| 0 <= t < c ==> (#[trigger] orig[t]).ts < raw_cut,
                decreases ring@.len() - c,
            {
                c = c + 1;
            }
            let total = ring.len();
            let kept = ring.split_off(c);
            proof {
                assert forall|t: int| c <= t < orig.len() implies (#[trigger] orig[t]).ts >= raw_cut by {
                    if c < orig.len() {
                        assert(orig[c as int].ts >= raw_cut);
                        if t > c {
                            assert(orig[c as int].ts < orig[t].ts);
                        }
                    }
                }
            }
            keep.push(c < total);
            proof {
                if c < orig.len() {
                    assert(orig.last().ts >= raw_cut);
                } else {
                    assert(orig.len() > 0);
                    assert(orig.last().ts < raw_cut);
                }
            }
            self.by_link.replace_at(i, kept);
            proof {
                assert forall|j: int| 0 <= j < n implies (#[trigger] self.by_link.key_at(j)) == old(self).by_link.key_at(j) by {
                    assert(self.by_link.key_at(j) == mid.key_at(j));
                }
            }
            i = i + 1;
        }
        let ghost trimmed = self.by_link;
        self.by_link.retain_mask(&keep);
        // The gossip source: drop its expired head.
        let mut r: usize = 0;
        while r < self.recent.len() && self.recent[r].2.ts < raw_cut
            invariant
                r <= self.recent@.len(),
                self.recent == old(self).recent,
                forall|j: int| 0 <= j < r ==> (#[trigger] self.recent@[j]).2.ts < raw_cut,
            decreases self.recent@.len() - r,
        {
            r = r + 1;
        }
        let ghost old_recent = old(self)@.recent;
        let tail = self.recent.split_off(r);
        self.recent = tail;
        proof {
            assert(self@.recent =~= old_recent.subrange(r as int, old_recent.len() as int));
            assert forall|j: int| 0 <= j < r implies (#[trigger] old_recent[j]).2.ts < raw_cut by {
                assert(old_recent[j] == entry_view(old(self).recent@[j]));
            }
            if r < old_recent.len() {
                assert(old_recent[r as int] == entry_view(old(self).recent@[r as int]));
            }
            assert(seqs_sorted(self@.recent)) by {
                assert forall|a: int, b: int| 0 <= a <= b < self@.recent.len() implies (#[trigger] self@.recent[a]).0 <= (#[trigger] self@.recent[b]).0 by {
                    assert(self@.recent[a] == old_recent[a + r]);
                    assert(self@.recent[b] == old_recent[b + r]);
                }
            }
            assert forall|j: int| 0 <= j < self@.recent.len() implies (#[trigger] self@.recent[j]).0 <= self.seq by {
                assert(self@.recent[j] == old_recent[j + r]);
            }
            self.lemma_prune_rings(*old(self), trimmed, keep@, raw_cut);
        }
    }

    proof fn lemma_prune_rings(&self, before: Self, trimmed: AssocMap<LinkKey, Vec<RawSample<D>>>, keep: Seq<bool>, cut: u64)
        requires
            before.wf(),
            trimmed.wf(),
            self.by_link.wf(),
            self.sent.wf(),
            keep.len() == trimmed.seq().len(),
            trimmed.seq().len() == before.by_link.seq().len(),
            forall|j: int| 0 <= j < trimmed.seq().len() ==> (#[trigger] trimmed.key_at(j)) == before.by_link.key_at(j),
            forall|j: int| 0 <= j < trimmed.seq().len() ==> {
                let ring = (#[trigger] before.by_link.seq()[j]).1@;
                let now_ring = trimmed.seq()[j].1@;
                &&& keep[j] == (ring.last().ts >= cut)
                &&& exists|c: int| 0 <= c <= ring.len() && now_ring == ring.subrange(c, ring.len() as int)
                    && (forall|t: int| 0 <= t < c ==> (#[trigger] ring[t]).ts < cut)
                    && (forall|t: int| c <= t < ring.len() ==> (#[trigger] ring[t]).ts >= cut)
            },
            forall|k: LinkKeyView| #[trigger] self.by_link.map().contains_key(k) <==> (trimmed.map().contains_key(k) && keep[trimmed.index_of(k)]),
            forall|k: LinkKeyView| #[trigger] self.by_link.map().contains_key(k) ==> self.by_link.map()[k] == trimmed.map()[k],
        ensures
            forall|k: LinkKeyView| #[trigger] self@.rings.contains_key(k) <==> (before@.rings.contains_key(k)
                && before@.rings[k].last().ts >= cut),
            forall|k: LinkKeyView| #[trigger] self@.rings.contains_key(k) ==> {
                let ring = before@.rings[k];
                exists|c: int| 0 <= c < ring.len() && self@.rings[k] == ring.subrange(c, ring.len() as int)
                    && (forall|j: int| 0 <= j < c ==> (#[trigger] ring[j]).ts < cut)
                    && (forall|j: int| c <= j < ring.len() ==> (#[trigger] ring[j]).ts >= cut)
            },
            forall|k: LinkKeyView| #[trigger] self@.rings.contains_key(k) ==> {
                &&& self@.rings[k].len() > 0
                &&& self@.rings[k].len() <= RAW_RING_CAP
                &&& ascending(self@.rings[k])
            },
    {
        trimmed.lemma_map_domain();
        before.by_link.lemma_map_domain();
        assert forall|k: LinkKeyView| trimmed.map().contains_key(k) <==> before.by_link.map().contains_key(k) by {
            if trimmed.map().contains_key(k) {
                let j = trimmed.index_of(k);
                before.by_link.lemma_index_of(j);
            }
            if before.by_link.map().contains_key(k) {
                let j = before.by_link.index_of(k);
                trimmed.lemma_index_of(j);
            }
        }
        assert forall|k: LinkKeyView| #[trigger] trimmed.map().contains_key(k) implies trimmed.index_of(k) == before.by_link.index_of(k) by {
            let j = trimmed.index_of(k);
            before.by_link.lemma_index_of(j);
        }
        assert forall|k: LinkKeyView| #[trigger] self@.rings.contains_key(k) implies {
            let ring = before@.rings[k];
            &&& exists|c: int| 0 <= c < ring.len() && self@.rings[k] == ring.subrange(c, ring.len() as int)
                && (forall|j: int| 0 <= j < c ==> (#[trigger] ring[j]).ts < cut)
                && (forall|j: int| c <= j < ring.len() ==> (#[trigger] ring[j]).ts >= cut)
            &&& self@.rings[k].len() > 0
            &&& self@.rings[k].len() <= RAW_RING_CAP
            &&& ascending(self@.rings[k])
        } by {
            let j = trimmed.index_of(k);
            trimmed.lemma_index_of(j);
            before.by_link.lemma_index_of(j);
            let ring = before.by_link.seq()[j].1@;
            assert(before@.rings[k] == ring);
            assert(self@.rings[k] == trimmed.seq()[j].1@);
            let c = choose|c: int| 0 <= c <= ring.len() && trimmed.seq()[j].1@ == ring.subrange(c, ring.len() as int)
                && (forall|t: int| 0 <= t < c ==> (#[trigger] ring[t]).ts < cut)
                && (forall|t: int| c <= t < ring.len() ==> (#[trigger] ring[t]).ts >= cut);
            assert(keep[j]);
            assert(ring.last().ts >= cut);
            before.lemma_rings();
            assert(ring.len() > 0);
            assert(ascending(ring));
            if c == ring.len() {
                assert(ring[ring.len() - 1].ts < cut);
            }
            assert(c < ring.len());
            assert(ascending(self@.rings[k])) by {
                assert forall|a: int, b: int| 0 <= a < b < self@.rings[k].len() implies (#[trigger] self@.rings[k][a]).ts < (#[trigger] self@.rings[k][b]).ts by {
                    assert(self@.rings[k][a] == ring[a + c]);
                    assert(self@.rings[k][b] == ring[b + c]);
                }
            }
        }
        assert forall|k: LinkKeyView| #[trigger] self@.rings.contains_key(k) <==> (before@.rings.contains_key(k)
            && before@.rings[k].last().ts >= cut) by {
            if before.by_link.map().contains_key(k) {
                let j = before.by_link.index_of(k);
                before.by_link.lemma_index_of(j);
                trimmed.lemma_index_of(j);
            }
        }
    }

    /// Collapse recent raw samples for a link into the classifier's
    /// per-dimension view: the always-tier dims (rtt/loss/rr) are taken from
    /// the most recent sample within `always_fresh_secs`; the throughput dim
    /// is the most recent value within `tcp_fresh_secs`, else the last-known
    /// one carried within `tcp_carry_secs`. `None` when the link has no
    /// sample within the carry horizon.
    pub fn window(&self, link: &LinkKey, spec: &WindowSpec, now: u64) -> (r: Option<WindowView<D>>)
        requires
            self.wf(),
        ensures
            r == (if self@.rings.contains_key(link@) { collapse(self@.rings[link@], *spec, now) } else { None }),
    {
        proof {
            self.lemma_rings();
        }
        let ring = match self.by_link.get(link) {
            Some(r) => r,
            None => return None,
        };
        proof {
            self.by_link.lemma_map_domain();
            self.by_link.lemma_index_of(self.by_link.index_of(link@));
            assert(ring@ == self@.rings[link@]);
        }
        let n = ring.len();
        let newest = ring[n - 1];
        assert(newest == ring@.last());
        if now.saturating_sub(newest.ts) > spec.tcp_carry_secs {
            return None;
        }
        let rtt = latest_index(ring, now, spec.always_fresh_secs, Dim::Rtt);
        let loss = latest_index(ring, now, spec.always_fresh_secs, Dim::Loss);
        let rr = latest_index(ring, now, spec.always_fresh_secs, Dim::Rr);
        let tcp = latest_index(ring, now, spec.tcp_carry_secs, Dim::Tcp);
        let ghost ringv = ring@;
        proof {
            lemma_latest_bounds(ringv, now, spec.always_fresh_secs, Dim::Rtt);
            lemma_latest_bounds(ringv, now, spec.always_fresh_secs, Dim::Loss);
            lemma_latest_bounds(ringv, now, spec.always_fresh_secs, Dim::Rr);
            lemma_latest_bounds(ringv, now, spec.tcp_carry_secs, Dim::Tcp);
        }
        let rtt_v = pick(ring, rtt, Dim::Rtt);
        let loss_v = pick(ring, loss, Dim::Loss);
        let rr_v = pick(ring, rr, Dim::Rr);
        let tcp_v = pick(ring, tcp, Dim::Tcp);
        assert(rtt_v == value_within(ringv, now, spec.always_fresh_secs, Dim::Rtt));
        assert(loss_v == value_within(ringv, now, spec.always_fresh_secs, Dim::Loss));
        assert(rr_v == value_within(ringv, now, spec.always_fresh_secs, Dim::Rr));
        assert(tcp_v == value_within(ringv, now, spec.tcp_carry_secs, Dim::Tcp));
        let carried = match tcp {
            Some(i) => now.saturating_sub(ring[i].ts) > spec.tcp_fresh_secs,
            None => false,
        };
        Some(WindowView {
            ts: newest.ts,
            state: code_to_state(newest.state),
            rtt_ms: rtt_v,
            loss_pct: loss_v,
            rr_tps: rr_v,
            jitter_ms: None,
            tcp_mbps: tcp_v,
            util_mbps: newest.util_mbps,
            tcp_carried: carried,
        })
    }
}

fn pick<D: Copy>(ring: &Vec<RawSample<D>>, at: Option<usize>, d: Dim) -> (v: Option<D>)
    requires
        at is Some ==> at.unwrap() < ring@.len(),
    ensures
        v == (match at {
            Some(i) => dim_of(ring@[i as int], d),
            None => None,
        }),
{
    match at {
        Some(i) => sample_dim(&ring[i], d),
        None => None,
    }
}

fn sample_dim<D: Copy>(s: &RawSample<D>, d: Dim) -> (r: Option<D>)
    ensures
        r == dim_of(*s, d),
{
    match d {
        Dim::Rtt => s.rtt_ms,
        Dim::Loss => s.loss_pct,
        Dim::Rr => s.rr_tps,
        Dim::Tcp => s.tcp_mbps,
    }
}

proof fn lemma_latest_bounds<D>(ring: Seq<RawSample<D>>, now: u64, horizon: u64, d: Dim)
    ensures
        latest_within(ring, now, horizon, d) matches Some(i) ==> 0 <= i < ring.len() && dim_of(ring[i], d) is Some
            && age(now, ring[i].ts) <= horizon,
    decreases ring.len(),
{
    if ring.len() > 0 {
        lemma_latest_bounds(ring.drop_last(), now, horizon, d);
    }
}

/// Scanning the prefix `ring[..i]` gives the same answer as the whole ring
/// when every later sample is within the horizon and leaves `d` unset.
proof fn lemma_latest_prefix<D>(ring: Seq<RawSample<D>>, i: int, now: u64, horizon: u64, d: Dim)
    requires
        0 <= i <= ring.len(),
        forall|j: int| i <= j < ring.len() ==> age(now, (#[trigger] ring[j]).ts) <= horizon && dim_of(ring[j], d) is None,
    ensures
        latest_within(ring, now, horizon, d) == latest_within(ring.take(i), now, horizon, d),
    decreases ring.len() - i,
{
    if i < ring.len() {
        assert(ring.drop_last().take(i) =~= ring.take(i));
        lemma_latest_prefix(ring.drop_last(), i, now, horizon, d);
    } else {
        assert(ring.take(i) =~= ring);
    }
}

fn latest_index<D: Copy>(ring: &Vec<RawSample<D>>, now: u64, horizon: u64, d: Dim) -> (r: Option<usize>)
    ensures
        r == (match latest_within(ring@, now, horizon, d) { Some(i) => Some(i as usize), None => None::<usize> }),
        r is Some ==> r.unwrap() < ring@.len(),
{
    let mut i = ring.len();
    while i > 0
        invariant
            i <= ring@.len(),
            forall|j: int| i <= j < ring@.len() ==> age(now, (#[trigger] ring@[j]).ts) <= horizon && dim_of(ring@[j], d) is None,
        decreases i,
    {
        let s = &ring[i - 1];
        proof {
            lemma_latest_prefix(ring@, i as int, now, horizon, d);
            assert(ring@.take(i as int).last() == ring@[i - 1]);
            assert(ring@.take(i as int).drop_last() =~= ring@.take(i - 1));
        }
        if now.saturating_sub(s.ts) > horizon {
            return None;
        }
        if sample_dim(s, d).is_some() {
            return Some(i - 1);
        }
        i = i - 1;
    }
    proof {
        lemma_latest_prefix(ring@, 0, now, horizon, d);
    }
    None
}

/// Unix seconds now (wall clock).
pub fn now_secs() -> u64 {
    crate::clock::wall_clock_secs()
}

/// Ingest never loses a link and never moves a link's newest sample back in
/// time.
proof fn lemma_ingest_monotone<D>(m: TsdbView<D>, persist: bool, link: LinkKeyView, s: RawSample<D>, k: LinkKeyView)
    requires
        m.rings.contains_key(k) ==> m.rings[k].len() > 0,
    ensures
        m.rings.contains_key(k) ==> ingested(m, persist, link, s).rings.contains_key(k)
            && ingested(m, persist, link, s).rings[k].len() > 0
            && ingested(m, persist, link, s).rings[k].last().ts >= m.rings[k].last().ts,
        takes(m, link, s) ==> ingested(m, persist, link, s).rings.contains_key(link)
            && ingested(m, persist, link, s).rings[link].len() > 0
            && ingested(m, persist, link, s).rings[link].last() == s,
{
    if takes(m, link, s) {
        let ring = if m.rings.contains_key(link) { m.rings[link] } else { Seq::empty() };
        let grown = ring.push(s);
        assert(grown.last() == s);
        if grown.len() > RAW_RING_CAP {
            assert(grown.drop_first().last() == s);
        }
    }
}

/// After a batch, every link it mentions holds a sample at least as new as
/// each of the batch's samples for that link.
proof fn lemma_merged_covers<D>(m: TsdbView<D>, persist: bool, batch: Seq<(LinkKeyView, RawSample<D>)>)
    requires
        forall|k: LinkKeyView| #[trigger] m.rings.contains_key(k) ==> m.rings[k].len() > 0,
    ensures
        forall|k: LinkKeyView| #[trigger] merged(m, persist, batch).rings.contains_key(k) ==> merged(m, persist, batch).rings[k].len() > 0,
        forall|k: LinkKeyView| #[trigger] m.rings.contains_key(k) ==> merged(m, persist, batch).rings.contains_key(k),
        forall|j: int| 0 <= j < batch.len() ==> merged(m, persist, batch).rings.contains_key((#[trigger] batch[j]).0)
            && merged(m, persist, batch).rings[batch[j].0].last().ts >= batch[j].1.ts,
    decreases batch.len(),
{
    if batch.len() > 0 {
        let prev = merged(m, persist, batch.drop_last());
        lemma_merged_covers(m, persist, batch.drop_last());
        let (link, s) = batch.last();
        assert forall|k: LinkKeyView| #[trigger] merged(m, persist, batch).rings.contains_key(k) implies merged(m, persist, batch).rings[k].len() > 0 by {
            lemma_ingest_monotone(prev, persist, link, s, k);
        }
        assert forall|k: LinkKeyView| #[trigger] m.rings.contains_key(k) implies merged(m, persist, batch).rings.contains_key(k) by {
            lemma_ingest_monotone(prev, persist, link, s, k);
        }
        assert forall|j: int| 0 <= j < batch.len() implies merged(m, persist, batch).rings.contains_key((#[trigger] batch[j]).0)
            && merged(m, persist, batch).rings[batch[j].0].last().ts >= batch[j].1.ts by {
            lemma_ingest_monotone(prev, persist, link, s, batch[j].0);
            if j < batch.len() - 1 {
                assert(batch.drop_last()[j] == batch[j]);
            }
        }
    }
}

/// A store that already holds samples at least as new as each of a batch's
/// samples ignores the whole batch.
proof fn lemma_merged_noop<D>(m: TsdbView<D>, persist: bool, batch: Seq<(LinkKeyView, RawSample<D>)>)
    requires
        forall|j: int| 0 <= j < batch.len() ==> m.rings.contains_key((#[trigger] batch[j]).0)
            && m.rings[batch[j].0].last().ts >= batch[j].1.ts,
    ensures
        merged(m, persist, batch) == m,
    decreases batch.len(),
{
    if batch.len() > 0 {
        assert forall|j: int| 0 <= j < batch.drop_last().len() implies m.rings.contains_key((#[trigger] batch.drop_last()[j]).0)
            && m.rings[batch.drop_last()[j].0].last().ts >= batch.drop_last()[j].1.ts by {
            assert(batch.drop_last()[j] == batch[j]);
        }
        lemma_merged_noop(m, persist, batch.drop_last());
        assert(batch.last() == batch[batch.len() - 1]);
    }
}

/// Replaying a gossip batch that was already merged changes nothing: merging
/// is idempotent, so resends after a dropped round are harmless.
pub proof fn law_merge_replay_ignored<D>(m: TsdbView<D>, persist: bool, batch: Seq<(LinkKeyView, RawSample<D>)>)
    requires
        forall|k: LinkKeyView| #[trigger] m.rings.contains_key(k) ==> m.rings[k].len() > 0,
    ensures
        merged(merged(m, persist, batch), persist, batch) == merged(m, persist, batch),
{
    lemma_merged_covers(m, persist, batch);
    lemma_merged_noop(merged(m, persist, batch), persist, batch);
}

/// Consecutive deltas tile the log: the delta after the last seq of a batch
/// starts right where the batch ended.
pub proof fn law_deltas_tile<D>(recent: Seq<(u64, LinkKeyView, RawSample<D>)>, after: u64, limit: nat)
    requires
        seqs_sorted(recent),
        limit > 0,
        first_after(recent, after) + limit < recent.len(),
        forall|i: int, j: int| 0 <= i < j < recent.len() ==> (#[trigger] recent[i]).0 < (#[trigger] recent[j]).0,
    ensures
        ({
            let d = delta_after(recent, after, limit);
            let next = first_after(recent, d.last().0);
            next == first_after(recent, after) + limit
        }),
{
    let start = first_after(recent, after);
    lemma_first_after(recent, after);
    let d = delta_after(recent, after, limit);
    let w = d.last().0;
    assert(w == recent[start + limit - 1].0);
    lemma_first_after(recent, w);
    let next = first_after(recent, w);
    if next < start + limit {
        assert(recent[next].0 > w);
        assert(recent[next].0 <= recent[start + limit - 1].0);
    }
    if next > start + limit {
        assert(recent[start + limit].0 <= w);
    }
}

/// `first_after` splits a sorted log at the watermark.
pub proof fn lemma_first_after<D>(recent: Seq<(u64, LinkKeyView, RawSample<D>)>, after: u64)
    requires
        seqs_sorted(recent),
    ensures
        0 <= first_after(recent, after) <= recent.len(),
        forall|j: int| 0 <= j < first_after(recent, after) ==> (#[trigger] recent[j]).0 <= after,
        forall|j: int| first_after(recent, after) <= j < recent.len() ==> (#[trigger] recent[j]).0 > after,
    decreases recent.len(),
{
    if recent.len() > 0 {
        lemma_first_after(recent.drop_last(), after);
        if recent.last().0 <= after {
            assert forall|j: int| 0 <= j < recent.len() implies (#[trigger] recent[j]).0 <= after by {
                assert(recent[j].0 <= recent.last().0);
            }
        } else {
            assert forall|j: int| first_after(recent, after) <= j < recent.len() implies (#[trigger] recent[j]).0 > after by {
                if j < recent.len() - 1 {
                    assert(recent.drop_last()[j] == recent[j]);
                }
            }
            assert forall|j: int| 0 <= j < first_after(recent, after) implies (#[trigger] recent[j]).0 <= after by {
                assert(recent.drop_last()[j] == recent[j]);
            }
        }
    }
}

/// Index of the first `/` in `s`.
pub open spec fn first_slash(s: Seq<char>) -> Option<int>
    decreases s.len(),
{
    if s.len() == 0 {
        None
    } else if s[0] == '/' {
        Some(0)
    } else {
        match first_slash(s.drop_first()) {
            Some(i) => Some(i + 1),
            None => None,
        }
    }
}

/// The link a stored id names: `from/to/interface`, split at the first two
/// slashes (the interface keeps any further ones); an id with fewer slashes
/// is all `from`.
pub open spec fn parse_link_spec(s: Seq<char>) -> LinkKeyView {
    match first_slash(s) {
        Some(i) => {
            let rest = s.skip(i + 1);
            match first_slash(rest) {
                Some(j) => (s.take(i), rest.take(j), rest.skip(j + 1)),
                None => (s, Seq::empty(), Seq::empty()),
            }
        },
        None => (s, Seq::empty(), Seq::empty()),
    }
}

proof fn lemma_first_slash(s: Seq<char>)
    ensures
        first_slash(s) matches Some(i) ==> 0 <= i < s.len() && s[i] == '/' && forall|k: int| 0 <= k < i ==> s[k] != '/',
        first_slash(s) is None ==> forall|k: int| 0 <= k < s.len() ==> s[k] != '/',
    decreases s.len(),
{
    if s.len() > 0 && s[0] != '/' {
        lemma_first_slash(s.drop_first());
        assert forall|k: int| 0 < k < s.len() implies s[k] == s.drop_first()[k - 1] by {}
    }
}

proof fn lemma_first_slash_of(a: Seq<char>, b: Seq<char>)
    requires
        !a.contains('/'),
    ensures
        first_slash(a + seq!['/'] + b) == Some(a.len() as int),
    decreases a.len(),
{
    if a.len() > 0 {
        assert(a[0] != '/');
        assert((a + seq!['/'] + b).drop_first() =~= a.drop_first() + seq!['/'] + b);
        lemma_first_slash_of(a.drop_first(), b);
    }
}

fn find_slash(s: &str) -> (r: Option<usize>)
    ensures
        match first_slash(s@) {
            Some(i) => r is Some && r.unwrap() as int == i,
            None => r is None,
        },
{
    let n = s.unicode_len();
    let mut i: usize = 0;
    proof {
        assert(s@.skip(0) =~= s@);
    }
    while i < n
        invariant
            n == s@.len(),
            i <= n,
            first_slash(s@) == (match first_slash(s@.skip(i as int)) {
                Some(k) => Some(k + i),
                None => None::<int>,
            }),
        decreases n - i,
    {
        proof {
            assert(s@.skip(i as int)[0] == s@[i as int]);
            assert(s@.skip(i as int).drop_first() =~= s@.skip(i + 1));
        }
        if s.get_char(i) == '/' {
            return Some(i);
        }
        i = i + 1;
    }
    None
}

/// The link a stored id names (see `parse_link_spec`).
pub fn parse_link_id(id: &str) -> (r: LinkKey)
    ensures
        r@ == parse_link_spec(id@),
{
    let n = id.unicode_len();
    proof {
        lemma_first_slash(id@);
    }
    match find_slash(id) {
        Some(i) => {
            let rest = id.substring_char(i + 1, n);
            proof {
                assert(rest@ =~= id@.skip(i + 1));
                lemma_first_slash(rest@);
            }
            match find_slash(rest) {
                Some(j) => {
                    let m = rest.unicode_len();
                    let from = id.substring_char(0, i);
                    let to = rest.substring_char(0, j);
                    let iface = rest.substring_char(j + 1, m);
                    proof {
                        assert(from@ =~= id@.take(i as int));
                        assert(to@ =~= rest@.take(j as int));
                        assert(iface@ =~= rest@.skip(j + 1));
                    }
                    LinkKey { from: from.to_string(), to: to.to_string(), interface: iface.to_string() }
                },
                None => LinkKey { from: id.to_string(), to: String::new(), interface: String::new() },
            }
        },
        None => LinkKey { from: id.to_string(), to: String::new(), interface: String::new() },
    }
}

/// A link's stored id reads back as the same link, whenever its `from` and
/// `to` hold no `/` (the interface may).
pub proof fn law_link_id_roundtrip(k: LinkKeyView)
    requires
        !k.0.contains('/'),
        !k.1.contains('/'),
    ensures
        parse_link_spec(crate::controller::model::link_id(k)) == k,
{
    let s = crate::controller::model::link_id(k);
    assert(s =~= k.0 + seq!['/'] + (k.1 + seq!['/'] + k.2));
    lemma_first_slash_of(k.0, k.1 + seq!['/'] + k.2);
    let rest = s.skip(k.0.len() as int + 1);
    assert(rest =~= k.1 + seq!['/'] + k.2);
    lemma_first_slash_of(k.1, k.2);
    assert(s.take(k.0.len() as int) =~= k.0);
    assert(rest.take(k.1.len() as int) =~= k.1);
    assert(rest.skip(k.1.len() as int + 1) =~= k.2);
}

impl<D: Copy> Tsdb<D> {
    /// Hand the samples awaiting the durable copy to the caller (the flush),
    /// leaving none pending.
    pub fn take_pending(&mut self) -> (r: Vec<(LinkKey, RawSample<D>)>)
        requires
            old(self).wf(),
        ensures
            final(self).wf(),
            r@.map_values(|e: (LinkKey, RawSample<D>)| (e.0@, e.1)) == old(self)@.pending,
            final(self)@ == (TsdbView { pending: Seq::empty(), ..old(self)@ }),
            final(self).persists() == old(self).persists(),
            final(self).retention() == old(self).retention(),
    {
        let mut out: Vec<(LinkKey, RawSample<D>)> = Vec::new();
        std::mem::swap(&mut out, &mut self.pending);
        proof {
            assert(self@.pending =~= Seq::<(LinkKeyView, RawSample<D>)>::empty());
            assert(self.rings() == old(self).rings());
            assert(self.recent_seq() == old(self).recent_seq());
        }
        out
    }

    /// Put back samples a failed flush could not write, after any that
    /// arrived meanwhile.
    pub fn restore_pending(&mut self, batch: Vec<(LinkKey, RawSample<D>)>)
        requires
            old(self).wf(),
        ensures
            final(self).wf(),
            final(self)@ == (TsdbView {
                pending: old(self)@.pending + batch@.map_values(|e: (LinkKey, RawSample<D>)| (e.0@, e.1)),
                ..old(self)@
            }),
            final(self).persists() == old(self).persists(),
            final(self).retention() == old(self).retention(),
    {
        let mut batch = batch;
        let ghost b = batch@.map_values(|e: (LinkKey, RawSample<D>)| (e.0@, e.1));
        let ghost p0 = self@.pending;
        self.pending.append(&mut batch);
        proof {
            assert(self@.pending =~= p0 + b);
            assert(self.rings() == old(self).rings());
            assert(self.recent_seq() == old(self).recent_seq());
        }
    }
}

/// The oldest time a retention window keeps at `now`.
pub fn retention_cutoff(now: u64, retention_secs: u64) -> (r: u64)
    ensures
        r == (if now >= retention_secs { now - retention_secs } else { 0 }),
{
    now.saturating_sub(retention_secs)
}

/// Rows (link id, time) older than a cutoff.
pub open spec fn older_than(cutoff: u64) -> spec_fn((Seq<char>, u64)) -> bool {
    |e: (Seq<char>, u64)| e.1 < cutoff
}

/// A durable row's key as plain values.
pub open spec fn row_view(e: (String, u64)) -> (Seq<char>, u64) {
    (e.0@, e.1)
}

/// The durable rows (link id, time) past the retention `cutoff`, in order:
/// the ones a flush deletes.
pub fn stale_rows(rows: &Vec<(String, u64)>, cutoff: u64) -> (r: Vec<(String, u64)>)
    ensures
        r@.map_values(|e: (String, u64)| row_view(e)) == rows@.map_values(|e: (String, u64)| row_view(e)).filter(older_than(cutoff)),
{
    let ghost rv = rows@.map_values(|e: (String, u64)| row_view(e));
    let mut out: Vec<(String, u64)> = Vec::new();
    let mut i: usize = 0;
    proof {
        reveal(Seq::filter);
        assert(rv.take(0) =~= Seq::<(Seq<char>, u64)>::empty());
        assert(out@.map_values(|e: (String, u64)| row_view(e)) =~= rv.take(0).filter(older_than(cutoff)));
    }
    while i < rows.len()
        invariant
            i <= rows@.len(),
            rv == rows@.map_values(|e: (String, u64)| row_view(e)),
            out@.map_values(|e: (String, u64)| row_view(e)) == rv.take(i as int).filter(older_than(cutoff)),
        decreases rows@.len() - i,
    {
        let ghost prev = out@.map_values(|e: (String, u64)| row_view(e));
        proof {
            reveal(Seq::filter);
            assert(rv.take(i + 1).drop_last() =~= rv.take(i as int));
            assert(rv.take(i + 1).last() == rv[i as int]);
        }
        if rows[i].1 < cutoff {
            let e = (rows[i].0.clone(), rows[i].1);
            out.push(e);
            proof {
                assert(out@.map_values(|e: (String, u64)| row_view(e)) =~= prev.push(rv[i as int]));
            }
        }
        i = i + 1;
    }
    proof {
        assert(rv.take(rows@.len() as int) =~= rv);
    }
    out
}

/// The classifier's window of a link is anchored at its newest sample: it
/// exists exactly while that sample is within the carry horizon, and then
/// its time, state and utilization are the newest sample's, and a round-trip
/// the newest sample carries within the freshness window is the one shown.
pub proof fn law_window_anchored_at_newest<D>(ring: Seq<RawSample<D>>, spec: WindowSpec, now: u64)
    requires
        ring.len() > 0,
    ensures
        collapse(ring, spec, now) is Some <==> age(now, ring.last().ts) <= spec.tcp_carry_secs,
        collapse(ring, spec, now) matches Some(v) ==> {
            &&& v.ts == ring.last().ts
            &&& v.state == code_to_state_spec(ring.last().state)
            &&& v.util_mbps == ring.last().util_mbps
            &&& (age(now, ring.last().ts) <= spec.always_fresh_secs && ring.last().rtt_ms is Some) ==> v.rtt_ms == ring.last().rtt_ms
        },
{
}

} // verus!
