//! Controller scheduler: decides what each agent should do on each tick.
//!
//! The controller is the responsible party for whole-mesh coordination. On
//! every tick it issues, per owned link:
//!   - always-on probe work on a fixed cadence;
//!   - gated throughput probe work only when the link's fence lease is free
//!     (acquiring the lease here, before dispatch);
//!   - `apply_cost` when the derived cost differs from what the agent last was
//!     told to apply.

use crate::controller::fence::{acquire_result, after_acquire, Fence, FenceView};
use crate::controller::kv::{KvView, LwwStore};
use crate::controller::model::{link_id, LinkKey, LinkKeyView};
use crate::controller::worker::{
    cmd_key, due, opt_string_view, queue_has_key, tier_kind, RegistryView, Tier, WorkCmd, WorkerRegistry, WorkerView,
};
use vstd::prelude::*;

verus! {

/// Cadence of the always-on tier (seconds).
pub const ALWAYS_INTERVAL: u64 = 15;

/// Cadence of the throughput tier (seconds).
pub const THROUGHPUT_INTERVAL: u64 = 300;

/// Lifetime of the fence lease taken for a throughput probe (seconds).
pub const FENCE_TTL_SECS: u64 = 120;

/// `c` is a probe of `tier` for `link` carrying `token`.
pub open spec fn probe_cmd(c: WorkCmd, tier: Tier, link: LinkKeyView, token: Option<Seq<char>>) -> bool {
    match c {
        WorkCmd::Probe { tier: t, token: tk, link: l, traceparent, .. } => t == tier && l@ == link
            && opt_string_view(tk) == token && traceparent is None,
        _ => false,
    }
}

/// `c` tells the agent to apply `cost` on `link`.
pub open spec fn apply_cmd(c: WorkCmd, link: LinkKeyView, cost: u32) -> bool {
    match c {
        WorkCmd::ApplyCost { link: l, cost: k, traceparent, .. } => l@ == link && k == cost
            && traceparent is None,
        _ => false,
    }
}

/// The agent is known and has no pending command with `c`'s key.
pub open spec fn enqueues(r: RegistryView, agent: Seq<char>, c: WorkCmd) -> bool {
    r.contains_key(agent) && !queue_has_key(r[agent].queue, c)
}

/// The registry after queueing `c` for `agent` (a duplicate key is refused).
pub open spec fn queued(r: RegistryView, agent: Seq<char>, c: WorkCmd) -> RegistryView {
    if enqueues(r, agent, c) {
        r.insert(agent, WorkerView { queue: r[agent].queue.push(c), ..r[agent] })
    } else {
        r
    }
}

/// The registry after stamping a probe of `tier` on link `id` as issued at `now`.
pub open spec fn stamped(r: RegistryView, agent: Seq<char>, id: Seq<char>, tier: Tier, now: u64) -> RegistryView {
    if r.contains_key(agent) {
        r.insert(agent, WorkerView { last_issue: r[agent].last_issue.insert((id, tier), now), ..r[agent] })
    } else {
        r
    }
}

/// The registry after remembering that `cost` was sent for link `id`.
pub open spec fn cost_sent(r: RegistryView, agent: Seq<char>, id: Seq<char>, cost: u32) -> RegistryView {
    if r.contains_key(agent) {
        r.insert(agent, WorkerView { applied_sent: r[agent].applied_sent.insert(id, cost), ..r[agent] })
    } else {
        r
    }
}

/// The cost last sent to `agent` for link `id`, if any.
pub open spec fn sent(r: RegistryView, agent: Seq<char>, id: Seq<char>) -> Option<u32> {
    if r.contains_key(agent) && r[agent].applied_sent.contains_key(id) {
        Some(r[agent].applied_sent[id])
    } else {
        None
    }
}

/// Queue a probe and, when it went in, stamp the tier as issued.
pub open spec fn issue_probe(r: RegistryView, agent: Seq<char>, c: WorkCmd, id: Seq<char>, tier: Tier, now: u64) -> RegistryView {
    if enqueues(r, agent, c) {
        stamped(queued(r, agent, c), agent, id, tier, now)
    } else {
        r
    }
}

/// Always-on tier: a due link gets a probe.
pub open spec fn always_step(r0: RegistryView, r1: RegistryView, agent: Seq<char>, link: LinkKeyView, now: u64) -> bool {
    if r0.contains_key(agent) && due(r0[agent], link_id(link), Tier::Always, now, ALWAYS_INTERVAL) {
        exists|c: WorkCmd| #[trigger] probe_cmd(c, Tier::Always, link, None)
            && r1 == issue_probe(r0, agent, c, link_id(link), Tier::Always, now)
    } else {
        r1 == r0
    }
}

/// Throughput tier: a due link is probed only under a freshly acquired lease,
/// whose token the probe carries.
pub open spec fn throughput_step(
    r0: RegistryView,
    f0: FenceView,
    r1: RegistryView,
    f1: FenceView,
    agent: Seq<char>,
    link: LinkKeyView,
    now: u64,
) -> bool {
    if r0.contains_key(agent) && due(r0[agent], link_id(link), Tier::Throughput, now, THROUGHPUT_INTERVAL) {
        exists|tok: Seq<char>|
            {
                &&& f1 == #[trigger] after_acquire(f0, agent, link_id(link), FENCE_TTL_SECS, now, tok)
                &&& match acquire_result(f0, agent, link_id(link), FENCE_TTL_SECS, now, tok) {
                    Ok(lease) => exists|c: WorkCmd| #[trigger]
                        probe_cmd(c, Tier::Throughput, link, Some(lease.token))
                            && r1 == issue_probe(r0, agent, c, link_id(link), Tier::Throughput, now),
                    Err(_) => r1 == r0,
                }
            }
    } else {
        r1 == r0 && f1 == f0
    }
}

/// Policy: when the derived cost differs from what was sent, queue an
/// `apply_cost` and remember the cost as sent.
pub open spec fn cost_step<M>(r0: RegistryView, r1: RegistryView, kv: KvView<M>, agent: Seq<char>, link: LinkKeyView) -> bool {
    if kv.contains_key(link) && kv[link].ospf_cost is Some && sent(r0, agent, link_id(link)) != kv[link].ospf_cost {
        exists|c: WorkCmd| #[trigger] apply_cmd(c, link, kv[link].ospf_cost.unwrap())
            && r1 == cost_sent(queued(r0, agent, c), agent, link_id(link), kv[link].ospf_cost.unwrap())
    } else {
        r1 == r0
    }
}

/// One owned link's share of a tick.
pub open spec fn link_step<M>(
    r0: RegistryView,
    f0: FenceView,
    r3: RegistryView,
    f3: FenceView,
    kv: KvView<M>,
    agent: Seq<char>,
    link: LinkKeyView,
    now: u64,
) -> bool {
    exists|r1: RegistryView, r2: RegistryView|
        #[trigger] always_step(r0, r1, agent, link, now) && #[trigger] throughput_step(r1, f0, r2, f3, agent, link, now)
            && cost_step(r2, r3, kv, agent, link)
}

/// The states `st[0]`, ..., `st[n]` pass through the owned links' steps in
/// order: `st[i + 1]` follows from `st[i]` by link `owned[i]`'s step.
pub open spec fn steps_ok<M>(
    st: Seq<(RegistryView, FenceView)>,
    kv: KvView<M>,
    owned: Seq<(Seq<char>, LinkKeyView)>,
    now: u64,
) -> bool {
    &&& st.len() == owned.len() + 1
    &&& forall|i: int|
        0 <= i < owned.len() ==> link_step(
            st[i].0,
            st[i].1,
            (#[trigger] st[i + 1]).0,
            st[i + 1].1,
            kv,
            owned[i].0,
            owned[i].1,
            now,
        )
}

/// A whole tick: the owned links' steps in order, from `(r0, f0)` to `(r1, f1)`.
pub open spec fn tick<M>(
    r0: RegistryView,
    f0: FenceView,
    r1: RegistryView,
    f1: FenceView,
    kv: KvView<M>,
    owned: Seq<(Seq<char>, LinkKeyView)>,
    now: u64,
) -> bool {
    exists|st: Seq<(RegistryView, FenceView)>|
        #[trigger] steps_ok(st, kv, owned, now) && st[0] == (r0, f0) && st.last() == (r1, f1)
}

/// Fresh, globally-unique command id per dispatch (like an `X-Request-Id`),
/// so command/reply correlation is unambiguous even across re-dispatch.
fn cmd_id() -> (r: String)
    ensures
        crate::clock::uuid_v4_text(r@),
{
    crate::clock::uuid4()
}

fn plan_link<M: Copy>(
    workers: &mut WorkerRegistry,
    fence: &mut Fence,
    kv: &LwwStore<M>,
    agent: &String,
    link: &LinkKey,
    now: u64,
)
    requires
        old(workers).wf(),
        old(fence).wf(),
        kv.wf(),
    ensures
        final(workers).wf(),
        final(fence).wf(),
        final(workers).owned() == old(workers).owned(),
        link_step(old(workers)@, old(fence)@, final(workers)@, final(fence)@, kv@, agent@, link@, now),
{
    let ghost r0 = workers@;
    let ghost f0 = fence@;
    let lid = link.id();

    // Always-on tier (cheap, congestion-immune) — never gated.
    if workers.always_due(agent.as_str(), link, now, ALWAYS_INTERVAL) {
        let cmd = WorkCmd::Probe { id: cmd_id(), tier: Tier::Always, token: None, link: link.clone(), traceparent: None };
        let ghost c = cmd;
        // push() dedups per (link, tier); stamp issued only when queued.
        if workers.push(agent.as_str(), cmd) {
            workers.mark_issued(agent.as_str(), link, Tier::Always, now);
        }
        proof {
            assert(probe_cmd(c, Tier::Always, link@, None));
            assert(workers@ == issue_probe(r0, agent@, c, link_id(link@), Tier::Always, now));
        }
    }
    let ghost r1 = workers@;
    assert(always_step(r0, r1, agent@, link@, now));

    // Throughput tier (intrusive) — only when the fence is free.
    if workers.throughput_due(agent.as_str(), link, now, THROUGHPUT_INTERVAL) {
        let token = cmd_id();
        let ghost tok = token@;
        match fence.acquire_at(agent.as_str(), lid.as_str(), FENCE_TTL_SECS, now, token) {
            Ok(lease) => {
                let ghost lv = lease@;
                let cmd = WorkCmd::Probe {
                    id: cmd_id(),
                    tier: Tier::Throughput,
                    token: Some(lease.token),
                    link: link.clone(),
                    traceparent: None,
                };
                let ghost c = cmd;
                if workers.push(agent.as_str(), cmd) {
                    workers.mark_issued(agent.as_str(), link, Tier::Throughput, now);
                }
                proof {
                    assert(probe_cmd(c, Tier::Throughput, link@, Some(lv.token)));
                    assert(workers@ == issue_probe(r1, agent@, c, link_id(link@), Tier::Throughput, now));
                }
            },
            Err(_) => {},
        }
        proof {
            assert(fence@ == after_acquire(f0, agent@, link_id(link@), FENCE_TTL_SECS, now, tok));
        }
    }
    let ghost r2 = workers@;
    assert(throughput_step(r1, f0, r2, fence@, agent@, link@, now));

    // Policy: apply the derived cost when it differs from what was sent.
    match kv.get(link) {
        Some(rec) => match rec.ospf_cost {
            Some(cost) => {
                if workers.applied_sent(agent.as_str(), link) != Some(cost) {
                    let cmd = WorkCmd::ApplyCost { id: cmd_id(), link: link.clone(), cost, traceparent: None };
                    let ghost c = cmd;
                    workers.push(agent.as_str(), cmd);
                    workers.set_applied_sent(agent.as_str(), link, cost);
                    proof {
                        assert(apply_cmd(c, link@, cost));
                        assert(workers@ == cost_sent(queued(r2, agent@, c), agent@, link_id(link@), cost));
                    }
                }
            },
            None => {},
        },
        None => {},
    }
    assert(cost_step(r2, workers@, kv@, agent@, link@));
}

/// One scheduling pass at time `now` over every link owned by a registered
/// agent (see `tick`).
pub fn plan_tick_at<M: Copy>(workers: &mut WorkerRegistry, fence: &mut Fence, kv: &LwwStore<M>, now: u64)
    requires
        old(workers).wf(),
        old(fence).wf(),
        kv.wf(),
    ensures
        final(workers).wf(),
        final(fence).wf(),
        tick(old(workers)@, old(fence)@, final(workers)@, final(fence)@, kv@, old(workers).owned(), now),
{
    // Seeding for fresh agents is handled in register; here we only queue
    // work for links owned by registered agents.
    let owned = workers.owned_links();
    let ghost pairs = owned@.map_values(|e: (String, LinkKey)| (e.0@, e.1@));
    let ghost r0 = workers@;
    let ghost f0 = fence@;
    let mut i: usize = 0;
    let ghost mut st: Seq<(RegistryView, FenceView)> = seq![(r0, f0)];
    while i < owned.len()
        invariant
            workers.wf(),
            fence.wf(),
            kv.wf(),
            i <= owned@.len(),
            pairs == owned@.map_values(|e: (String, LinkKey)| (e.0@, e.1@)),
            pairs == old(workers).owned(),
            workers.owned() == old(workers).owned(),
            r0 == old(workers)@,
            f0 == old(fence)@,
            st.len() == i + 1,
            st[0] == (r0, f0),
            st.last() == (workers@, fence@),
            forall|j: int|
                0 <= j < i ==> link_step(
                    st[j].0,
                    st[j].1,
                    (#[trigger] st[j + 1]).0,
                    st[j + 1].1,
                    kv@,
                    pairs[j].0,
                    pairs[j].1,
                    now,
                ),
        decreases owned@.len() - i,
    {
        let ghost rm = workers@;
        let ghost fm = fence@;
        let (agent, link) = (&owned[i].0, &owned[i].1);
        plan_link(workers, fence, kv, agent, link, now);
        proof {
            assert(pairs[i as int] == (agent@, link@));
            st = st.push((workers@, fence@));
        }
        i = i + 1;
    }
    proof {
        assert(steps_ok(st, kv@, pairs, now));
    }
}

/// One scheduling pass at the current wall-clock time.
pub fn plan_tick<M: Copy>(workers: &mut WorkerRegistry, fence: &mut Fence, kv: &LwwStore<M>)
    requires
        old(workers).wf(),
        old(fence).wf(),
        kv.wf(),
    ensures
        final(workers).wf(),
        final(fence).wf(),
        exists|now: u64| tick(old(workers)@, old(fence)@, final(workers)@, final(fence)@, kv@, old(workers).owned(), now),
{
    let now = crate::clock::wall_clock_secs();
    plan_tick_at(workers, fence, kv, now);
}

/// After a link's step the agent holds the derived cost as sent: the policy
/// the controller wants is always what it has told (or is telling) the agent.
pub proof fn law_cost_converges<M>(
    r0: RegistryView,
    f0: FenceView,
    r3: RegistryView,
    f3: FenceView,
    kv: KvView<M>,
    agent: Seq<char>,
    link: LinkKeyView,
    now: u64,
)
    requires
        link_step(r0, f0, r3, f3, kv, agent, link, now),
        r0.contains_key(agent),
        kv.contains_key(link),
        kv[link].ospf_cost is Some,
    ensures
        sent(r3, agent, link_id(link)) == kv[link].ospf_cost,
{
    let (r1, r2) = choose|r1: RegistryView, r2: RegistryView|
        #[trigger] always_step(r0, r1, agent, link, now) && #[trigger] throughput_step(r1, f0, r2, f3, agent, link, now)
            && cost_step(r2, r3, kv, agent, link);
    assert(r1.contains_key(agent));
    assert(r2.contains_key(agent));
    if sent(r2, agent, link_id(link)) != kv[link].ospf_cost {
        let c = choose|c: WorkCmd| #[trigger] apply_cmd(c, link, kv[link].ospf_cost.unwrap())
            && r3 == cost_sent(queued(r2, agent, c), agent, link_id(link), kv[link].ospf_cost.unwrap());
        assert(queued(r2, agent, c).contains_key(agent));
    }
}

/// A throughput probe is only ever queued under a lease that the fence now
/// holds for the link, in the agent's name, and the probe carries that
/// lease's token.
pub proof fn law_throughput_under_lease(
    r1: RegistryView,
    f0: FenceView,
    r2: RegistryView,
    f1: FenceView,
    agent: Seq<char>,
    link: LinkKeyView,
    now: u64,
)
    requires
        throughput_step(r1, f0, r2, f1, agent, link, now),
        r2 != r1,
    ensures
        f1.contains_key(link_id(link)),
        f1[link_id(link)].holder == agent,
        f1[link_id(link)].issued_at == now,
        r2[agent].queue.len() > 0,
        probe_cmd(r2[agent].queue.last(), Tier::Throughput, link, Some(f1[link_id(link)].token)),
{
    let tok = choose|tok: Seq<char>|
        {
            &&& f1 == #[trigger] after_acquire(f0, agent, link_id(link), FENCE_TTL_SECS, now, tok)
            &&& match acquire_result(f0, agent, link_id(link), FENCE_TTL_SECS, now, tok) {
                Ok(lease) => exists|c: WorkCmd| #[trigger]
                    probe_cmd(c, Tier::Throughput, link, Some(lease.token))
                        && r2 == issue_probe(r1, agent, c, link_id(link), Tier::Throughput, now),
                Err(_) => r2 == r1,
            }
        };
    let lease = acquire_result(f0, agent, link_id(link), FENCE_TTL_SECS, now, tok)->Ok_0;
    let c = choose|c: WorkCmd| #[trigger]
        probe_cmd(c, Tier::Throughput, link, Some(lease.token))
            && r2 == issue_probe(r1, agent, c, link_id(link), Tier::Throughput, now);
    assert(enqueues(r1, agent, c));
}

/// The always-on tier is never gated: when an always-on probe is due on a
/// link and none is pending for it, the link's step queues one and stamps it
/// issued, whatever the fence holds.
pub proof fn law_always_probe_not_gated<M>(
    r0: RegistryView,
    f0: FenceView,
    r3: RegistryView,
    f3: FenceView,
    kv: KvView<M>,
    agent: Seq<char>,
    link: LinkKeyView,
    now: u64,
)
    requires
        link_step(r0, f0, r3, f3, kv, agent, link, now),
        r0.contains_key(agent),
        due(r0[agent], link_id(link), Tier::Always, now, ALWAYS_INTERVAL),
        forall|j: int|
            0 <= j < r0[agent].queue.len() ==> cmd_key(#[trigger] r0[agent].queue[j]) != (
            link_id(link),
            tier_kind(Tier::Always),
            ),
    ensures
        r3.contains_key(agent),
        r3[agent].queue.len() > r0[agent].queue.len(),
        probe_cmd(r3[agent].queue[r0[agent].queue.len() as int], Tier::Always, link, None),
        r3[agent].last_issue.contains_key((link_id(link), Tier::Always)),
        r3[agent].last_issue[(link_id(link), Tier::Always)] == now,
{
    let (r1, r2) = choose|r1: RegistryView, r2: RegistryView|
        #[trigger] always_step(r0, r1, agent, link, now) && #[trigger] throughput_step(r1, f0, r2, f3, agent, link, now)
            && cost_step(r2, r3, kv, agent, link);
    let c = choose|c: WorkCmd| #[trigger] probe_cmd(c, Tier::Always, link, None)
        && r1 == issue_probe(r0, agent, c, link_id(link), Tier::Always, now);
    let n = r0[agent].queue.len() as int;
    assert(!queue_has_key(r0[agent].queue, c)) by {
        if queue_has_key(r0[agent].queue, c) {
            let j = choose|j: int| 0 <= j < r0[agent].queue.len() && cmd_key(#[trigger] r0[agent].queue[j]) == cmd_key(c);
            assert(cmd_key(r0[agent].queue[j]) != (link_id(link), tier_kind(Tier::Always)));
        }
    }
    assert(r1[agent].queue == r0[agent].queue.push(c));
    assert(r1[agent].last_issue[(link_id(link), Tier::Always)] == now);
    // The throughput and policy steps only append to the queue and touch
    // other keys.
    assert(r2.contains_key(agent));
    assert(r2[agent].queue.len() > n && r2[agent].queue[n] == c && r2[agent].last_issue.contains_key((link_id(link), Tier::Always))
        && r2[agent].last_issue[(link_id(link), Tier::Always)] == now) by {
        if r2 != r1 {
            let tok = choose|tok: Seq<char>|
                {
                    &&& f3 == #[trigger] after_acquire(f0, agent, link_id(link), FENCE_TTL_SECS, now, tok)
                    &&& match acquire_result(f0, agent, link_id(link), FENCE_TTL_SECS, now, tok) {
                        Ok(lease) => exists|c2: WorkCmd| #[trigger]
                            probe_cmd(c2, Tier::Throughput, link, Some(lease.token))
                                && r2 == issue_probe(r1, agent, c2, link_id(link), Tier::Throughput, now),
                        Err(_) => r2 == r1,
                    }
                };
            let lease = acquire_result(f0, agent, link_id(link), FENCE_TTL_SECS, now, tok)->Ok_0;
            let c2 = choose|c2: WorkCmd| #[trigger]
                probe_cmd(c2, Tier::Throughput, link, Some(lease.token))
                    && r2 == issue_probe(r1, agent, c2, link_id(link), Tier::Throughput, now);
            assert(r2[agent].queue == r1[agent].queue.push(c2));
        }
    }
    if r3 != r2 {
        let c3 = choose|c3: WorkCmd| #[trigger] apply_cmd(c3, link, kv[link].ospf_cost.unwrap())
            && r3 == cost_sent(queued(r2, agent, c3), agent, link_id(link), kv[link].ospf_cost.unwrap());
        assert(queued(r2, agent, c3).contains_key(agent));
    }
}

/// The keys of every agent's pending commands stay pairwise distinct under
/// queueing: no agent ever holds two pending probes of one tier for one link.
pub proof fn law_queue_keys_unique(r: RegistryView, agent: Seq<char>, c: WorkCmd)
    requires
        r.contains_key(agent),
        forall|i: int, j: int|
            0 <= i < j < r[agent].queue.len() ==> cmd_key(#[trigger] r[agent].queue[i])
                != cmd_key(#[trigger] r[agent].queue[j]),
    ensures
        ({
            let q = queued(r, agent, c)[agent].queue;
            forall|i: int, j: int|
                0 <= i < j < q.len() ==> cmd_key(#[trigger] q[i])
                    != cmd_key(#[trigger] q[j])
        }),
{
    let q = queued(r, agent, c)[agent].queue;
    if enqueues(r, agent, c) {
        assert forall|i: int, j: int| 0 <= i < j < q.len() implies cmd_key(#[trigger] q[i])
            != cmd_key(#[trigger] q[j]) by {
            if j == q.len() - 1 {
                assert(q[i] == r[agent].queue[i]);
                assert(q[j] == c);
            } else {
                assert(q[i] == r[agent].queue[i]);
                assert(q[j] == r[agent].queue[j]);
            }
        }
    }
}

} // verus!
