//! The decisions behind the HTTP API: fence acquire/release answers,
//! measurement ingest, agent registration with its policy snapshot, and the
//! small rules of the read endpoints.

use crate::controller::fence::{acquire_result, after_acquire, after_release, release_result, Fence, FenceView, Lease};
use crate::controller::kv::{lww_put, KvView, LwwStore};
use crate::controller::model::{link_id, LinkKey, LinkKeyView, Metrics, ProbeState, Quality, QualityRecord};
use crate::controller::quality::{best_effort, classify, cost_for_quality, cost_of, DimCrossings, QualityCosts};
use crate::controller::state::PeerHealthEntry;
use crate::controller::worker::{RegisterReq, RegisterResp, RegistryView, WorkCmd, WorkerRegistry, WorkerView};
use vstd::prelude::*;

verus! {

/// Body of `POST /v1/fence/acquire`.
#[derive(Debug)]
pub struct AcquireReq {
    pub agent: String,
    pub link: String,
    pub ttl_secs: u64,
}

/// Lease time-to-live when a request names none.
pub fn default_ttl() -> (r: u64)
    ensures
        r == 120,
{
    120
}

/// Answer of a fence acquire or release.
#[derive(Debug)]
pub struct AcquireResp {
    pub ok: bool,
    pub token: Option<String>,
    pub ttl: Option<u64>,
    pub holder: Option<String>,
    pub reason: Option<&'static str>,
}

/// A fence answer as plain values.
pub struct AcquireRespView {
    pub ok: bool,
    pub token: Option<Seq<char>>,
    pub ttl: Option<u64>,
    pub holder: Option<Seq<char>>,
    pub reason: Option<Seq<char>>,
}

pub open spec fn opt_text(o: Option<String>) -> Option<Seq<char>> {
    match o {
        Some(s) => Some(s@),
        None => None,
    }
}

pub open spec fn opt_static(o: Option<&'static str>) -> Option<Seq<char>> {
    match o {
        Some(s) => Some(s@),
        None => None,
    }
}

impl View for AcquireResp {
    type V = AcquireRespView;

    open spec fn view(&self) -> AcquireRespView {
        AcquireRespView {
            ok: self.ok,
            token: opt_text(self.token),
            ttl: self.ttl,
            holder: opt_text(self.holder),
            reason: opt_static(self.reason),
        }
    }
}

/// A refusal with a reason.
pub open spec fn refused(reason: Seq<char>, holder: Option<Seq<char>>) -> AcquireRespView {
    AcquireRespView { ok: false, token: None, ttl: None, holder, reason: Some(reason) }
}

/// The lease time actually requested: at least one second.
pub open spec fn effective_ttl(ttl: u64) -> u64 {
    if ttl < 1 {
        1
    } else {
        ttl
    }
}

/// The answer to an acquire at `now` with a fresh `token`: an empty agent or
/// link is invalid; otherwise the lease is granted, or refused naming its
/// holder.
pub open spec fn acquire_answer(m: FenceView, agent: Seq<char>, link: Seq<char>, ttl: u64, now: u64, token: Seq<char>) -> AcquireRespView {
    if agent.len() == 0 || link.len() == 0 {
        refused("invalid"@, None)
    } else {
        match acquire_result(m, agent, link, effective_ttl(ttl), now, token) {
            Ok(l) => AcquireRespView { ok: true, token: Some(l.token), ttl: Some(l.ttl_secs), holder: None, reason: None },
            Err(l) => refused("held"@, Some(l.holder)),
        }
    }
}

/// Acquire the fence for a request at `now` with `token`.
pub fn fence_acquire_at(fence: &mut Fence, req: &AcquireReq, now: u64, token: String) -> (r: AcquireResp)
    requires
        old(fence).wf(),
    ensures
        final(fence).wf(),
        r@ == acquire_answer(old(fence)@, req.agent@, req.link@, req.ttl_secs, now, token@),
        final(fence)@ == (if req.agent@.len() == 0 || req.link@.len() == 0 {
            old(fence)@
        } else {
            after_acquire(old(fence)@, req.agent@, req.link@, effective_ttl(req.ttl_secs), now, token@)
        }),
{
    if req.agent.as_str().is_empty() || req.link.as_str().is_empty() {
        return AcquireResp { ok: false, token: None, ttl: None, holder: None, reason: Some("invalid") };
    }
    let ttl = if req.ttl_secs < 1 {
        1
    } else {
        req.ttl_secs
    };
    match fence.acquire_at(req.agent.as_str(), req.link.as_str(), ttl, now, token) {
        Ok(l) => AcquireResp { ok: true, token: Some(l.token), ttl: Some(l.ttl_secs), holder: None, reason: None },
        Err(l) => AcquireResp { ok: false, token: None, ttl: None, holder: Some(l.holder), reason: Some("held") },
    }
}

/// Acquire the fence for a request, reading the clock and a fresh token.
pub fn fence_acquire(fence: &mut Fence, req: &AcquireReq) -> (r: AcquireResp)
    requires
        old(fence).wf(),
    ensures
        final(fence).wf(),
        (req.agent@.len() == 0 || req.link@.len() == 0) ==> r@ == refused("invalid"@, None) && final(fence)@ == old(fence)@,
        r.ok ==> r.token is Some && r.ttl == Some(effective_ttl(req.ttl_secs)) && final(fence)@.contains_key(req.link@)
            && final(fence)@[req.link@].token == r.token.unwrap()@ && final(fence)@[req.link@].holder == req.agent@
            && crate::clock::uuid_v4_text(r.token.unwrap()@),
        (!r.ok && req.agent@.len() > 0 && req.link@.len() > 0) ==> old(fence)@.contains_key(req.link@)
            && r@ == refused("held"@, Some(old(fence)@[req.link@].holder)) && final(fence)@ == old(fence)@
            && exists|now: u64| !#[trigger] old(fence)@[req.link@].expired_at(now),
{
    let now = crate::clock::wall_clock_secs();
    let token = crate::clock::uuid4();
    let r = fence_acquire_at(fence, req, now, token);
    proof {
        if !r.ok && req.agent@.len() > 0 && req.link@.len() > 0 {
            assert(!old(fence)@[req.link@].expired_at(now));
        }
    }
    r
}

/// Body of `POST /v1/fence/release`.
#[derive(Debug)]
pub struct ReleaseReq {
    pub link: String,
    pub token: String,
}

/// Release the fence when the token matches.
pub fn fence_release(fence: &mut Fence, req: &ReleaseReq) -> (r: AcquireResp)
    requires
        old(fence).wf(),
    ensures
        final(fence).wf(),
        final(fence)@ == after_release(old(fence)@, req.link@, req.token@),
        r@ == (if release_result(old(fence)@, req.link@, req.token@) {
            AcquireRespView { ok: true, token: None, ttl: None, holder: None, reason: None }
        } else {
            refused("notheld"@, None)
        }),
{
    let ok = fence.release(req.link.as_str(), req.token.as_str());
    AcquireResp { ok, token: None, ttl: None, holder: None, reason: if ok { None } else { Some("notheld") } }
}

/// The class and cost an ingested measurement gets: none while busy.
pub open spec fn ingest_class(state: ProbeState, c: DimCrossings, costs: QualityCosts) -> (Option<Quality>, Option<u32>) {
    if state == ProbeState::Busy {
        (None, None)
    } else {
        (Some(best_effort(c)), Some(cost_of(costs, best_effort(c))))
    }
}

/// Shared measurement ingest: classify, store (LWW, stamped with the report's
/// own time or `now`), and release the fence when a gated throughput report
/// echoes its token. `c` holds the crossings of the measurement against the
/// class thresholds.
pub fn ingest_quality_at<D: Copy>(
    kv: &mut LwwStore<Metrics<D>>,
    fence: &mut Fence,
    link: LinkKey,
    ts: Option<u64>,
    metrics: Metrics<D>,
    state: ProbeState,
    token: Option<String>,
    c: &DimCrossings,
    costs: &QualityCosts,
    now: u64,
) -> (r: (Option<Quality>, Option<u32>))
    requires
        old(kv).wf(),
        old(fence).wf(),
    ensures
        final(kv).wf(),
        final(fence).wf(),
        r == ingest_class(state, *c, *costs),
        final(kv)@ == lww_put(old(kv)@, link@, QualityRecord {
            ts: match ts { Some(t) => t, None => now },
            metrics,
            state,
            quality: r.0,
            ospf_cost: r.1,
        }),
        final(fence)@ == (match token {
            Some(t) => after_release(old(fence)@, link_id(link@), t@),
            None => old(fence)@,
        }),
{
    let quality = classify(state, c);
    let ospf_cost = match quality {
        Some(q) => Some(cost_for_quality(costs, q)),
        None => None,
    };
    let rec = QualityRecord {
        ts: match ts {
            Some(t) => t,
            None => now,
        },
        metrics,
        state,
        quality,
        ospf_cost,
    };
    let id = link.id();
    kv.put(link, rec);
    match token {
        Some(t) => {
            fence.release(id.as_str(), t.as_str());
        },
        None => {},
    }
    (quality, ospf_cost)
}

/// A gated report that echoes the token of the link's current lease frees
/// the link: the fence no longer holds it, and the next acquire on the link,
/// by any agent, is granted.
pub proof fn law_echoed_token_frees_link(
    f: FenceView,
    link: LinkKeyView,
    token: Seq<char>,
    agent: Seq<char>,
    ttl_secs: u64,
    now: u64,
    fresh: Seq<char>,
)
    requires
        f.contains_key(link_id(link)),
        f[link_id(link)].token == token,
    ensures
        !after_release(f, link_id(link), token).contains_key(link_id(link)),
        acquire_result(after_release(f, link_id(link), token), agent, link_id(link), ttl_secs, now, fresh) is Ok,
{
}

/// The command id of a seeded cost: `apply/<agent>/<link id>`.
pub open spec fn apply_id(agent: Seq<char>, link: LinkKeyView) -> Seq<char> {
    "apply/"@ + agent + "/"@ + link_id(link)
}

/// One owned link of a registering agent: when the KV holds a derived cost
/// for it that the agent was not already told, remember it as sent and seed
/// it.
pub open spec fn seed_step<M>(reg: RegistryView, kv: KvView<M>, agent: Seq<char>, pair: (Seq<char>, LinkKeyView)) -> (RegistryView, Option<(LinkKeyView, u32)>) {
    if pair.0 != agent || !reg.contains_key(agent) || !kv.contains_key(pair.1) || kv[pair.1].ospf_cost is None {
        (reg, None)
    } else {
        let cost = kv[pair.1].ospf_cost.unwrap();
        let w = reg[agent];
        let id = link_id(pair.1);
        if w.applied_sent.contains_key(id) && w.applied_sent[id] == cost {
            (reg, None)
        } else {
            (reg.insert(agent, WorkerView { applied_sent: w.applied_sent.insert(id, cost), ..w }), Some((pair.1, cost)))
        }
    }
}

/// The seeding over the owned (agent, link) pairs, first to last.
pub open spec fn seed_all<M>(reg: RegistryView, kv: KvView<M>, agent: Seq<char>, pairs: Seq<(Seq<char>, LinkKeyView)>) -> (RegistryView, Seq<(LinkKeyView, u32)>)
    decreases pairs.len(),
{
    if pairs.len() == 0 {
        (reg, Seq::empty())
    } else {
        let before = seed_all(reg, kv, agent, pairs.drop_last());
        let step = seed_step(before.0, kv, agent, pairs.last());
        match step.1 {
            Some(s) => (step.0, before.1.push(s)),
            None => (step.0, before.1),
        }
    }
}

/// Registration seeds only the registering agent's own links, each with the
/// cost the KV derived for it: a pair of another agent never seeds anything,
/// and every seeded (link, cost) comes from a pair `(agent, link)` of the
/// owned list whose KV record carries that cost.
pub proof fn law_seeds_only_own_links<M>(reg: RegistryView, kv: KvView<M>, agent: Seq<char>, pairs: Seq<(Seq<char>, LinkKeyView)>)
    ensures
        forall|pair: (Seq<char>, LinkKeyView)| pair.0 != agent ==> #[trigger] seed_step(reg, kv, agent, pair) == (reg, None::<(LinkKeyView, u32)>),
        forall|i: int| 0 <= i < seed_all(reg, kv, agent, pairs).1.len() ==> {
            let s = #[trigger] seed_all(reg, kv, agent, pairs).1[i];
            &&& exists|j: int| 0 <= j < pairs.len() && #[trigger] pairs[j] == (agent, s.0)
            &&& kv.contains_key(s.0)
            &&& kv[s.0].ospf_cost == Some(s.1)
        },
    decreases pairs.len(),
{
    if pairs.len() > 0 {
        let p = pairs.drop_last();
        law_seeds_only_own_links(reg, kv, agent, p);
        let before = seed_all(reg, kv, agent, p);
        let step = seed_step(before.0, kv, agent, pairs.last());
        let all = seed_all(reg, kv, agent, pairs);
        assert forall|i: int| 0 <= i < all.1.len() implies {
            let s = #[trigger] all.1[i];
            &&& exists|j: int| 0 <= j < pairs.len() && #[trigger] pairs[j] == (agent, s.0)
            &&& kv.contains_key(s.0)
            &&& kv[s.0].ospf_cost == Some(s.1)
        } by {
            if i < before.1.len() {
                assert(all.1[i] == before.1[i]);
                let s = before.1[i];
                let j = choose|j: int| 0 <= j < p.len() && #[trigger] p[j] == (agent, s.0);
                assert(pairs[j] == p[j]);
            } else {
                assert(step.1 is Some);
                assert(all.1[i] == step.1.unwrap());
                assert(pairs[pairs.len() - 1] == pairs.last());
            }
        }
    }
}

/// Whether `cmd` is the seeded apply-cost command for (`link`, `cost`).
pub open spec fn is_seed_cmd(cmd: WorkCmd, agent: Seq<char>, s: (LinkKeyView, u32)) -> bool {
    cmd matches WorkCmd::ApplyCost { id, link, cost, traceparent } && id@ == apply_id(agent, s.0) && link@ == s.0
        && cost == s.1 && traceparent is None
}

/// Register an agent and its managed links at `now`; the answer carries the
/// current policy snapshot (apply-cost commands) so a fresh agent converges
/// immediately. An empty agent name is refused.
pub fn register_agent_at<D: Copy>(workers: &mut WorkerRegistry, kv: &LwwStore<Metrics<D>>, req: RegisterReq, now: u64) -> (r: RegisterResp)
    requires
        old(workers).wf(),
        kv.wf(),
    ensures
        final(workers).wf(),
        req.agent@.len() == 0 ==> !r.ok && r.commands@.len() == 0 && final(workers)@ == old(workers)@,
        req.agent@.len() > 0 ==> r.ok && exists|mid: WorkerRegistry| {
            &&& mid.wf()
            &&& mid@ == crate::controller::worker::after_register(
                old(workers)@,
                req.agent@,
                req.links@.map_values(|l: LinkKey| l@),
                crate::controller::worker::opt_string_view(req.loopback),
                now,
            )
            &&& final(workers)@ == seed_all(mid@, kv@, req.agent@, mid.owned()).0
            &&& r.commands@.len() == seed_all(mid@, kv@, req.agent@, mid.owned()).1.len()
            &&& forall|i: int| 0 <= i < r.commands@.len() ==> is_seed_cmd(#[trigger] r.commands@[i], req.agent@,
                seed_all(mid@, kv@, req.agent@, mid.owned()).1[i])
        },
{
    if req.agent.as_str().is_empty() {
        return RegisterResp { ok: false, commands: Vec::new() };
    }
    let agent = req.agent;
    workers.register_at(agent.as_str(), req.links, req.loopback, now);
    let ghost mid = *workers;
    let owned = workers.owned_links();
    let ghost ov = owned@.map_values(|e: (String, LinkKey)| (e.0@, e.1@));
    let mut commands: Vec<WorkCmd> = Vec::new();
    let mut i: usize = 0;
    while i < owned.len()
        invariant
            workers.wf(),
            kv.wf(),
            i <= owned@.len(),
            ov == mid.owned(),
            ov == owned@.map_values(|e: (String, LinkKey)| (e.0@, e.1@)),
            workers@ == seed_all(mid@, kv@, agent@, ov.take(i as int)).0,
            commands@.len() == seed_all(mid@, kv@, agent@, ov.take(i as int)).1.len(),
            forall|j: int| 0 <= j < commands@.len() ==> is_seed_cmd(#[trigger] commands@[j], agent@,
                seed_all(mid@, kv@, agent@, ov.take(i as int)).1[j]),
        decreases owned@.len() - i,
    {
        let a = &owned[i].0;
        let link = &owned[i].1;
        let ghost before = seed_all(mid@, kv@, agent@, ov.take(i as int));
        proof {
            assert(ov.take(i + 1).drop_last() =~= ov.take(i as int));
            assert(ov.take(i + 1).last() == ov[i as int]);
            assert(ov[i as int] == (a@, link@));
        }
        if crate::text::str_eq(a.as_str(), agent.as_str()) && workers.has_agent(agent.as_str()) {
            let cost = match kv.get(link) {
                Some(rec) => rec.ospf_cost,
                None => None,
            };
            match cost {
                Some(cost) => {
                    let sent = workers.applied_sent(agent.as_str(), link);
                    let same = match sent {
                        Some(s) => s == cost,
                        None => false,
                    };
                    if !same {
                        workers.set_applied_sent(agent.as_str(), link, cost);
                        let mut id = String::from_str("apply/");
                        id.append(agent.as_str());
                        id.append("/");
                        let lid = link.id();
                        id.append(lid.as_str());
                        let ghost prev = commands@;
                        commands.push(WorkCmd::ApplyCost { id, link: link.clone(), cost, traceparent: None });
                        proof {
                            assert(commands@ == prev.push(commands@.last()));
                            assert forall|j: int| 0 <= j < commands@.len() implies is_seed_cmd(#[trigger] commands@[j], agent@,
                                seed_all(mid@, kv@, agent@, ov.take(i + 1)).1[j]) by {
                                if j < prev.len() {
                                    assert(commands@[j] == prev[j]);
                                }
                            }
                        }
                    }
                },
                None => {},
            }
        }
        i = i + 1;
    }
    proof {
        assert(ov.take(owned@.len() as int) =~= ov);
    }
    RegisterResp { ok: true, commands }
}

/// Prometheus value of a quality label: 0 good … 3 bad, 99 unknown.
pub open spec fn quality_label_spec(q: Seq<char>) -> u8 {
    if q == "good"@ {
        0
    } else if q == "acceptable"@ {
        1
    } else if q == "poor"@ {
        2
    } else if q == "bad"@ {
        3
    } else {
        99
    }
}

pub fn quality_label_value(q: &str) -> (r: u8)
    ensures
        r == quality_label_spec(q@),
{
    if crate::text::str_eq(q, "good") {
        0
    } else if crate::text::str_eq(q, "acceptable") {
        1
    } else if crate::text::str_eq(q, "poor") {
        2
    } else if crate::text::str_eq(q, "bad") {
        3
    } else {
        99
    }
}

/// Body of `POST /v1/agent/command` (long-polled work fetch).
#[derive(Debug)]
pub struct CommandReq {
    pub agent: String,
    pub timeout_ms: u64,
}

/// Long-poll timeout when a request names none.
pub fn default_timeout_ms() -> (r: u64)
    ensures
        r == 30_000,
{
    30_000
}

/// The long-poll wait actually used: capped at two minutes; zero means a
/// plain drain.
pub fn long_poll_timeout_ms(requested: u64) -> (r: u64)
    ensures
        r == (if requested < 120_000 { requested } else { 120_000 }),
{
    if requested < 120_000 {
        requested
    } else {
        120_000
    }
}

/// Query filter for the per-link read endpoints.
#[derive(Debug)]
pub struct LinkQuery {
    pub from: String,
    pub to: String,
    pub interface: String,
}

/// Answer of `GET /v1/status`.
#[derive(Debug)]
pub struct StatusResp {
    pub node: String,
    pub ready: bool,
    pub uptime_secs: u64,
    pub links: usize,
    pub leases: Vec<Lease>,
    pub members: Vec<String>,
    /// Per-member liveness reported by gossip (name -> health).
    pub peers: Vec<(String, PeerHealthEntry)>,
}

} // verus!
