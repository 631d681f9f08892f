//! Gossip / anti-entropy. Each node periodically pushes its KV view to peers
//! and accepts full-view exchanges. LWW merge means last-writer-wins; the
//! store tolerates eventual convergence (no consensus required).
//!
//! Alongside the KV, each exchange carries the node's new time-series samples
//! (a bounded delta since the per-peer watermark). Samples are idempotent on
//! the receiver (per-link timestamps are monotonic), so resends after a
//! dropped round are harmless. The watermark only advances once a round
//! succeeded.

use crate::controller::kv::{lww_merge, LwwStore};
use crate::controller::model::{LinkKey, LinkKeyView, Metrics, QualityRecord};
use crate::controller::state::{PeerHealth, PeerHealthEntry};
use crate::controller::tsdb::{delta_after, merged, RawSample, Tsdb, TsdbView, DELTA_LIMIT};
use vstd::prelude::*;

verus! {

/// The samples of a delta entry list, without their seqs.
pub open spec fn delta_samples<D>(d: Seq<(u64, LinkKeyView, RawSample<D>)>) -> Seq<(LinkKeyView, RawSample<D>)> {
    d.map_values(|e: (u64, LinkKeyView, RawSample<D>)| (e.1, e.2))
}

/// The watermark a peer has been sent.
pub open spec fn watermark_of(sent: Map<Seq<char>, u64>, peer: Seq<char>) -> u64 {
    if sent.contains_key(peer) {
        sent[peer]
    } else {
        0
    }
}

/// Samples newer than the node's per-peer watermark (at most `DELTA_LIMIT`),
/// without advancing it, plus the seq of the last one. Callers advance the
/// watermark (`note_sent`) only once the round succeeds.
pub fn take_for_peer<D: Copy>(tsdb: &Tsdb<D>, peer: &str) -> (r: (Vec<(LinkKey, RawSample<D>)>, u64))
    requires
        tsdb.wf(),
    ensures
        r.0@.map_values(|e: (LinkKey, RawSample<D>)| (e.0@, e.1)) == delta_samples(
            delta_after(tsdb@.recent, watermark_of(tsdb@.sent, peer@), DELTA_LIMIT as nat),
        ),
        r.1 == (if r.0@.len() == 0 {
            watermark_of(tsdb@.sent, peer@)
        } else {
            delta_after(tsdb@.recent, watermark_of(tsdb@.sent, peer@), DELTA_LIMIT as nat).last().0
        }),
{
    let wm = tsdb.sent_watermark(peer);
    let (delta, last) = tsdb.take_delta(wm, DELTA_LIMIT);
    let ghost dv = delta@.map_values(|e: (u64, LinkKey, RawSample<D>)| crate::controller::tsdb::entry_view(e));
    let mut out: Vec<(LinkKey, RawSample<D>)> = Vec::new();
    let mut i: usize = 0;
    while i < delta.len()
        invariant
            i <= delta@.len(),
            dv == delta@.map_values(|e: (u64, LinkKey, RawSample<D>)| crate::controller::tsdb::entry_view(e)),
            out@.map_values(|e: (LinkKey, RawSample<D>)| (e.0@, e.1)) == delta_samples(dv.take(i as int)),
        decreases delta@.len() - i,
    {
        let ghost prev = out@;
        out.push((delta[i].1.clone(), delta[i].2));
        proof {
            assert(out@ == prev.push(out@.last()));
            assert(dv.take(i + 1) =~= dv.take(i as int).push(dv[i as int]));
            assert(dv[i as int] == crate::controller::tsdb::entry_view(delta@[i as int]));
            assert(delta_samples(dv.take(i + 1)) =~= delta_samples(dv.take(i as int)).push((dv[i as int].1, dv[i as int].2)));
            assert(out@.map_values(|e: (LinkKey, RawSample<D>)| (e.0@, e.1)) =~= prev.map_values(|e: (LinkKey, RawSample<D>)| (e.0@, e.1)).push((dv[i as int].1, dv[i as int].2)));
        }
        i = i + 1;
    }
    proof {
        assert(dv.take(delta@.len() as int) =~= dv);
        if delta@.len() > 0 {
            assert(dv.last() == crate::controller::tsdb::entry_view(delta@.last()));
        }
    }
    (out, last)
}

/// What an inbound exchange answers: our KV view and our fresh samples for
/// the peer, with the seq of the last one.
pub struct ExchangeReply<D> {
    pub records: Vec<(LinkKey, QualityRecord<Metrics<D>>)>,
    pub ts_samples: Vec<(LinkKey, RawSample<D>)>,
}

/// Merge a peer's view into our stores and build the reply with our own
/// view. An inbound push proves round-trip reachability to the peer; the
/// samples we reply with count as sent.
pub fn exchange_at<D: Copy>(
    kv: &mut LwwStore<Metrics<D>>,
    tsdb: &mut Tsdb<D>,
    peers: &mut PeerHealth,
    node: &str,
    records: &[(LinkKey, QualityRecord<Metrics<D>>)],
    samples: &[(LinkKey, RawSample<D>)],
    now: u64,
) -> (r: ExchangeReply<D>)
    requires
        old(kv).wf(),
        old(tsdb).wf(),
        old(peers).wf(),
    ensures
        final(kv).wf(),
        final(tsdb).wf(),
        final(peers).wf(),
        final(kv)@ == lww_merge(old(kv)@, records@.map_values(|e: (LinkKey, QualityRecord<Metrics<D>>)| (e.0@, e.1))),
        ({
            let t = merged(old(tsdb)@, old(tsdb).persists(), samples@.map_values(|e: (LinkKey, RawSample<D>)| (e.0@, e.1)));
            let d = delta_after(t.recent, watermark_of(t.sent, node@), DELTA_LIMIT as nat);
            &&& r.ts_samples@.map_values(|e: (LinkKey, RawSample<D>)| (e.0@, e.1)) == delta_samples(d)
            &&& final(tsdb)@ == (if d.len() > 0 {
                TsdbView { sent: t.sent.insert(node@, d.last().0), ..t }
            } else {
                t
            })
        }),
        final(tsdb).persists() == old(tsdb).persists(),
        final(tsdb).retention() == old(tsdb).retention(),
        final(peers)@ == old(peers)@.insert(node@, PeerHealthEntry { last_ok_ts: Some(now), rtt_ms: Some(0) }),
        forall|i: int| 0 <= i < r.records@.len() ==> #[trigger] final(kv)@.contains_key(r.records@[i].0@) && final(kv)@[r.records@[i].0@]
            == r.records@[i].1,
        forall|k: LinkKeyView| #[trigger] final(kv)@.contains_key(k) ==> exists|i: int| 0 <= i < r.records@.len() && #[trigger] r.records@[i].0@ == k,
{
    kv.merge(records);
    if samples.len() > 0 {
        tsdb.merge_delta(samples);
    }
    proof {
        if samples@.len() == 0 {
            assert(samples@.map_values(|e: (LinkKey, RawSample<D>)| (e.0@, e.1)) =~= Seq::<(LinkKeyView, RawSample<D>)>::empty());
        }
    }
    peers.mark_ok_at(node, 0, now);
    let ghost t = tsdb@;
    let ghost d = delta_after(t.recent, watermark_of(t.sent, node@), DELTA_LIMIT as nat);
    let (ts_samples, last) = take_for_peer(tsdb, node);
    proof {
        assert(ts_samples@.map_values(|e: (LinkKey, RawSample<D>)| (e.0@, e.1)).len() == ts_samples@.len());
        assert(delta_samples(d).len() == d.len());
    }
    if ts_samples.len() > 0 {
        tsdb.note_sent(node, last);
    }
    let view = kv.all();
    let r = ExchangeReply { records: view, ts_samples };
    proof {
        assert forall|k: LinkKeyView| #[trigger] kv@.contains_key(k) implies exists|i: int| 0 <= i < r.records@.len() && #[trigger] r.records@[i].0@ == k by {
            let i = choose|i: int| 0 <= i < view@.len() && #[trigger] view@[i].0@ == k;
            assert(r.records@[i].0@ == k);
        }
    }
    r
}

/// The members a node pushes its view to: every member but itself.
pub fn gossip_targets(members: &Vec<String>, self_name: &str) -> (r: Vec<String>)
    ensures
        r@.map_values(|m: String| m@) == members@.map_values(|m: String| m@).filter(|m: Seq<char>| m != self_name@),
{
    let ghost mv = members@.map_values(|m: String| m@);
    let mut out: Vec<String> = Vec::new();
    let mut i: usize = 0;
    while i < members.len()
        invariant
            i <= members@.len(),
            mv == members@.map_values(|m: String| m@),
            out@.map_values(|m: String| m@) == mv.take(i as int).filter(|m: Seq<char>| m != self_name@),
        decreases members@.len() - i,
    {
        proof {
            assert(mv.take(i + 1).drop_last() =~= mv.take(i as int));
            reveal(Seq::filter);
        }
        if !crate::text::str_eq(members[i].as_str(), self_name) {
            let ghost prev = out@;
            out.push(members[i].clone());
            proof {
                assert(out@.map_values(|m: String| m@) =~= prev.map_values(|m: String| m@).push(mv[i as int]));
            }
        }
        i = i + 1;
    }
    proof {
        assert(mv.take(members@.len() as int) =~= mv);
    }
    out
}

} // verus!
