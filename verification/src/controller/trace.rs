//! End-to-end, ECMP-aware path trace (controller side).
//!
//! The controller asks each hop agent (via a `WorkCmd::Trace`) to resolve a
//! destination prefix against BIRD and walks the returned `next_hops`,
//! expanding every equal-cost branch into a DAG:
//!
//! ```text
//!   spoke-1 ── awg_hub_a ──> hub-a ── awg_hub_b ──> hub-b   (dev dummy_awg → reached)
//!                      └──> hub-x ──awg_xx──> xx            (dead-end: no route)
//! ```
//!
//! `kind: dev` on the destination's own loopback terminates a branch; `kind:
//! via` names the egress interface of the current hop, and the peer is resolved
//! from the link records the hop agent registered (`link.interface` is always
//! the *from* side, matching BIRD's egress). Quality/RTT/loss/cost for an edge
//! come from the controller's KV. Results are TTL-cached (~5 s) so the map
//! page's auto-refresh does not hammer the mesh.
//!
//! The walk is a breadth-first state machine: `next_node` hands out the next
//! hop to ask, the caller dispatches the command and waits for the reply, and
//! `on_reply` folds the reply into the DAG. Every node enters the frontier at
//! most once, so routing loops are recorded but never re-expanded.

use crate::controller::kv::{KvView, LwwStore};
use crate::controller::model::{quality_name, LinkKey, LinkKeyView, Metrics, ProbeState, Quality};
use crate::controller::worker::{opt_string_view, queue_has_key, RegistryView, WorkCmd, WorkerRegistry, WorkerView};
use crate::text::str_eq;
use vstd::prelude::*;

verus! {

/// Longest walk, in hops from the source.
pub const HOP_CAP: usize = 24;

/// How long a trace result is served from the cache (nanoseconds of the
/// caller's monotonic clock).
pub const CACHE_TTL_NANOS: u64 = 5_000_000_000;

/// How many trace results the cache keeps.
pub const CACHE_MAX: usize = 32;

/// Failure to *start* a trace (bad args, unknown source). Mid-walk problems are
/// rendered per-edge (`broken` + `reason`), not as endpoint errors.
#[derive(Debug)]
pub enum TraceError {
    BadRequest(String),
}

impl TraceError {
    /// The human-readable message.
    pub fn message(&self) -> (r: String)
        ensures
            r@ == (match self {
                TraceError::BadRequest(m) => m@,
            }),
    {
        match self {
            TraceError::BadRequest(m) => m.clone(),
        }
    }
}

/// One BIRD route (passed through untouched — the controller owns ECMP
/// parsing).
#[derive(Debug, Clone)]
pub struct RouteRep {
    pub prefix: String,
    pub primary: Option<String>,
    pub proto: Option<String>,
    pub preference: Option<u32>,
    pub cost: Option<u32>,
    pub local_pref: Option<u32>,
    pub as_path: Option<String>,
    pub next_hops: Vec<NextHopRep>,
}

/// One ECMP next hop. `via addr on iface` = continue into the mesh; `dev iface`
/// = the prefix is attached locally (on the destination this is `dummy_awg`).
#[derive(Debug)]
pub enum NextHopRep {
    Via { addr: Option<String>, iface: Option<String>, cost: Option<u32>, proto: Option<String> },
    Dev { iface: Option<String>, cost: Option<u32>, proto: Option<String> },
}

fn clone_opt(o: &Option<String>) -> (r: Option<String>)
    ensures
        r == *o,
{
    match o {
        Some(s) => Some(s.clone()),
        None => None,
    }
}

impl Clone for NextHopRep {
    fn clone(&self) -> (r: Self)
        ensures
            r == *self,
    {
        match self {
            NextHopRep::Via { addr, iface, cost, proto } => NextHopRep::Via {
                addr: clone_opt(addr),
                iface: clone_opt(iface),
                cost: *cost,
                proto: clone_opt(proto),
            },
            NextHopRep::Dev { iface, cost, proto } => NextHopRep::Dev {
                iface: clone_opt(iface),
                cost: *cost,
                proto: clone_opt(proto),
            },
        }
    }
}

/// What the agent answers for one dispatched `trace` command.
#[derive(Debug, Clone)]
pub struct TraceHopReply {
    pub agent: String,
    pub prefix: String,
    pub code: i64,
    pub routes: Vec<RouteRep>,
}

/// The characters of an optional string, empty when absent.
pub open spec fn text_or_empty(o: Option<String>) -> Seq<char> {
    match o {
        Some(s) => s@,
        None => Seq::empty(),
    }
}

/// Dedup key of a next hop: `dev/<iface>` or `via/<addr>/<iface>`.
pub open spec fn hop_key(h: NextHopRep) -> Seq<char> {
    match h {
        NextHopRep::Dev { iface, .. } => "dev/"@ + text_or_empty(iface),
        NextHopRep::Via { addr, iface, .. } => "via/"@ + text_or_empty(addr) + "/"@ + text_or_empty(iface),
    }
}

/// Every next hop of every route, in order.
pub open spec fn route_hops(routes: Seq<RouteRep>) -> Seq<NextHopRep>
    decreases routes.len(),
{
    if routes.len() == 0 {
        Seq::empty()
    } else {
        route_hops(routes.drop_last()) + routes.last().next_hops@
    }
}

/// Whether some hop of `s` has key `k`.
pub open spec fn key_seen(s: Seq<NextHopRep>, k: Seq<char>) -> bool {
    exists|j: int| 0 <= j < s.len() && hop_key(#[trigger] s[j]) == k
}

/// `s` with every hop whose key occurred earlier dropped.
pub open spec fn dedup_hops(s: Seq<NextHopRep>) -> Seq<NextHopRep>
    decreases s.len(),
{
    if s.len() == 0 {
        Seq::empty()
    } else {
        let d = dedup_hops(s.drop_last());
        if key_seen(s.drop_last(), hop_key(s.last())) {
            d
        } else {
            d.push(s.last())
        }
    }
}

fn text_of(o: &Option<String>) -> (r: &str)
    ensures
        r@ == text_or_empty(*o),
{
    match o {
        Some(s) => s.as_str(),
        None => {
            proof {
                reveal_strlit("");
            }
            ""
        },
    }
}

fn hop_key_of(h: &NextHopRep) -> (r: String)
    ensures
        r@ == hop_key(*h),
{
    match h {
        NextHopRep::Dev { iface, .. } => {
            let mut k = String::from_str("dev/");
            k.append(text_of(iface));
            k
        },
        NextHopRep::Via { addr, iface, .. } => {
            let mut k = String::from_str("via/");
            k.append(text_of(addr));
            k.append("/");
            k.append(text_of(iface));
            k
        },
    }
}

/// All next hops across every returned route, deduped by (kind, iface, addr).
/// Dedup matters: ECMP routes and covering routes can repeat the same next hop.
pub fn all_next_hops(routes: &Vec<RouteRep>) -> (r: Vec<NextHopRep>)
    ensures
        r@ == dedup_hops(route_hops(routes@)),
{
    let mut flat: Vec<NextHopRep> = Vec::new();
    let mut i: usize = 0;
    while i < routes.len()
        invariant
            i <= routes@.len(),
            flat@ == route_hops(routes@.take(i as int)),
        decreases routes@.len() - i,
    {
        let hops = &routes[i].next_hops;
        let ghost base = flat@;
        let mut j: usize = 0;
        while j < hops.len()
            invariant
                j <= hops@.len(),
                flat@ == base + hops@.take(j as int),
            decreases hops@.len() - j,
        {
            flat.push(hops[j].clone());
            proof {
                assert(hops@.take(j + 1) =~= hops@.take(j as int).push(hops@[j as int]));
            }
            j = j + 1;
        }
        proof {
            assert(hops@.take(j as int) =~= hops@);
            assert(routes@.take(i + 1).drop_last() =~= routes@.take(i as int));
            assert(routes@.take(i + 1).last() == routes@[i as int]);
        }
        i = i + 1;
    }
    proof {
        assert(routes@.take(routes@.len() as int) =~= routes@);
    }
    let mut seen: Vec<String> = Vec::new();
    let mut out: Vec<NextHopRep> = Vec::new();
    let mut k: usize = 0;
    while k < flat.len()
        invariant
            k <= flat@.len(),
            out@ == dedup_hops(flat@.take(k as int)),
            forall|key: Seq<char>| key_seen(flat@.take(k as int), key) <==> exists|t: int| 0 <= t < seen@.len() && (#[trigger] seen@[t])@ == key,
        decreases flat@.len() - k,
    {
        let key = hop_key_of(&flat[k]);
        let mut found = false;
        let mut t: usize = 0;
        while t < seen.len()
            invariant
                t <= seen@.len(),
                found == exists|u: int| 0 <= u < t && (#[trigger] seen@[u])@ == key@,
            decreases seen@.len() - t,
        {
            if seen[t] == key {
                found = true;
            }
            t = t + 1;
        }
        let ghost pre = flat@.take(k as int);
        let ghost seen0 = seen@;
        proof {
            assert(flat@.take(k + 1).drop_last() =~= pre);
            assert(flat@.take(k + 1).last() == flat@[k as int]);
            assert(found == key_seen(pre, key@));
        }
        if !found {
            seen.push(key);
            out.push(flat[k].clone());
        }
        proof {
            let now = flat@.take(k + 1);
            assert forall|kk: Seq<char>| key_seen(now, kk) <==> exists|t: int| 0 <= t < seen@.len() && (#[trigger] seen@[t])@ == kk by {
                if key_seen(now, kk) {
                    let j = choose|j: int| 0 <= j < now.len() && hop_key(#[trigger] now[j]) == kk;
                    if j < k {
                        assert(pre[j] == now[j]);
                        assert(key_seen(pre, kk));
                        let t0 = choose|t: int| 0 <= t < seen0.len() && (#[trigger] seen0[t])@ == kk;
                        assert(seen@[t0] == seen0[t0]);
                    } else if found {
                        let t0 = choose|t: int| 0 <= t < seen0.len() && (#[trigger] seen0[t])@ == key@;
                        assert(seen@[t0] == seen0[t0]);
                    } else {
                        assert(seen@[seen0.len() as int]@ == kk);
                    }
                }
                if exists|t: int| 0 <= t < seen@.len() && (#[trigger] seen@[t])@ == kk {
                    let t0 = choose|t: int| 0 <= t < seen@.len() && (#[trigger] seen@[t])@ == kk;
                    if t0 < seen0.len() {
                        assert(seen0[t0] == seen@[t0]);
                        assert(key_seen(pre, kk));
                        let j = choose|j: int| 0 <= j < pre.len() && hop_key(#[trigger] pre[j]) == kk;
                        assert(now[j] == pre[j]);
                    } else {
                        assert(hop_key(now[k as int]) == kk);
                    }
                }
            }
        }
        k = k + 1;
    }
    proof {
        assert(flat@.take(flat@.len() as int) =~= flat@);
    }
    out
}


/// One row of the trace DAG. An ECMP fan-out produces several rows at the same
/// depth from the same node; a terminal `dev` hop adds a `term` row.
#[derive(Debug)]
pub struct TraceEdge<D> {
    /// BFS depth (0 = the source agent itself).
    pub depth: usize,
    /// The node whose BIRD was asked to resolve the prefix.
    pub node: String,
    /// Egress interface (None for broken rows).
    pub iface: Option<String>,
    /// The resolved peer this edge leads to (None on dead-ends).
    pub to: Option<String>,
    /// True when this row marks "destination reached" (`dev` on the target).
    pub term: bool,
    /// True for a conflict/bad/missing-quality edge, a dead-end (no route), a
    /// hop that timed out, or a hop-cap cut.
    pub broken: bool,
    pub reason: Option<String>,
    /// Latest controller-side measurement for the edge's real link, if any.
    pub rtt_ms: Option<D>,
    pub loss_pct: Option<D>,
    pub quality: Option<String>,
    pub ospf_cost: Option<u32>,
}

/// A trace row as plain values.
pub struct EdgeView<D> {
    pub depth: nat,
    pub node: Seq<char>,
    pub iface: Option<Seq<char>>,
    pub to: Option<Seq<char>>,
    pub term: bool,
    pub broken: bool,
    pub reason: Option<Seq<char>>,
    pub rtt_ms: Option<D>,
    pub loss_pct: Option<D>,
    pub quality: Option<Seq<char>>,
    pub ospf_cost: Option<u32>,
}

impl<D> View for TraceEdge<D> {
    type V = EdgeView<D>;

    open spec fn view(&self) -> EdgeView<D> {
        EdgeView {
            depth: self.depth as nat,
            node: self.node@,
            iface: opt_string_view(self.iface),
            to: opt_string_view(self.to),
            term: self.term,
            broken: self.broken,
            reason: opt_string_view(self.reason),
            rtt_ms: self.rtt_ms,
            loss_pct: self.loss_pct,
            quality: opt_string_view(self.quality),
            ospf_cost: self.ospf_cost,
        }
    }
}

impl<D: Copy> Clone for TraceEdge<D> {
    fn clone(&self) -> (r: Self)
        ensures
            r@ == self@,
    {
        TraceEdge {
            depth: self.depth,
            node: self.node.clone(),
            iface: clone_opt(&self.iface),
            to: clone_opt(&self.to),
            term: self.term,
            broken: self.broken,
            reason: clone_opt(&self.reason),
            rtt_ms: self.rtt_ms,
            loss_pct: self.loss_pct,
            quality: clone_opt(&self.quality),
            ospf_cost: self.ospf_cost,
        }
    }
}

/// A row with nothing but its depth and node.
pub open spec fn plain_edge<D>(depth: nat, node: Seq<char>) -> EdgeView<D> {
    EdgeView {
        depth,
        node,
        iface: None,
        to: None,
        term: false,
        broken: false,
        reason: None,
        rtt_ms: None,
        loss_pct: None,
        quality: None,
        ospf_cost: None,
    }
}

/// A broken row with its reason.
pub open spec fn broken_edge<D>(depth: nat, node: Seq<char>, reason: Seq<char>) -> EdgeView<D> {
    EdgeView { broken: true, reason: Some(reason), ..plain_edge(depth, node) }
}

/// The row marking that the hop cap cut the walk at `node`.
pub open spec fn cap_edge<D>(depth: nat, node: Seq<char>) -> EdgeView<D> {
    broken_edge(depth, node, "hop cap (24) reached"@)
}

/// The row marking that `node` holds the destination (`dev`).
pub open spec fn term_edge<D>(depth: nat, node: Seq<char>) -> EdgeView<D> {
    EdgeView { iface: Some("dummy_awg"@), to: Some(node), term: true, ..plain_edge(depth, node) }
}

/// What the KV says of one edge, plus whether it counts as broken.
pub struct EdgeMetricsView<D> {
    pub broken: bool,
    pub reason: Option<Seq<char>>,
    pub rtt_ms: Option<D>,
    pub loss_pct: Option<D>,
    pub quality: Option<Seq<char>>,
    pub ospf_cost: Option<u32>,
}

/// A broken edge without measurements.
pub open spec fn unmeasured<D>(reason: Seq<char>) -> EdgeMetricsView<D> {
    EdgeMetricsView { broken: true, reason: Some(reason), rtt_ms: None, loss_pct: None, quality: None, ospf_cost: None }
}

/// Controller-side KV metrics for the edge `node --iface--> peer`: broken on a
/// conflict, a bad class, missing quality or no record at all.
pub open spec fn edge_metrics_of<D>(kv: KvView<Metrics<D>>, node: Seq<char>, peer: Option<Seq<char>>, iface: Option<Seq<char>>) -> EdgeMetricsView<D> {
    if peer is None || iface is None {
        unmeasured("peer not resolvable for egress interface"@)
    } else if !kv.contains_key((node, peer.unwrap(), iface.unwrap())) {
        unmeasured("no probe data for edge"@)
    } else {
        let rec = kv[(node, peer.unwrap(), iface.unwrap())];
        EdgeMetricsView {
            broken: rec.state == ProbeState::Conflict || rec.quality == Some(Quality::Bad) || rec.quality is None,
            reason: if rec.quality is None { Some("no quality data"@) } else { None },
            rtt_ms: rec.metrics.rtt_ms,
            loss_pct: rec.metrics.loss_pct,
            quality: match rec.quality {
                Some(q) => Some(quality_name(q)),
                None => None,
            },
            ospf_cost: rec.ospf_cost,
        }
    }
}

/// The row of a `via` hop.
pub open spec fn via_edge<D>(depth: nat, node: Seq<char>, iface: Option<Seq<char>>, peer: Option<Seq<char>>, m: EdgeMetricsView<D>) -> EdgeView<D> {
    EdgeView {
        depth,
        node,
        iface,
        to: peer,
        term: false,
        broken: m.broken,
        reason: m.reason,
        rtt_ms: m.rtt_ms,
        loss_pct: m.loss_pct,
        quality: m.quality,
        ospf_cost: m.ospf_cost,
    }
}

/// The peer of the first registered link of `node` whose (from-side)
/// interface is `iface`.
pub open spec fn peer_of(owned: Seq<(Seq<char>, LinkKeyView)>, node: Seq<char>, iface: Seq<char>) -> Option<Seq<char>>
    decreases owned.len(),
{
    if owned.len() == 0 {
        None
    } else if owned[0].0 == node && owned[0].1.2 == iface {
        Some(owned[0].1.1)
    } else {
        peer_of(owned.drop_first(), node, iface)
    }
}

/// An interface name, unless empty.
pub open spec fn nonempty(o: Option<String>) -> Option<Seq<char>> {
    match o {
        Some(s) => if s@.len() > 0 { Some(s@) } else { None },
        None => None,
    }
}

/// The walk as plain values. `queue` holds every node ever queued, in order,
/// with its depth; the ones before `head` have been taken.
pub struct WalkView<D> {
    pub queue: Seq<(Seq<char>, nat)>,
    pub head: nat,
    /// The node whose reply is awaited, with its depth.
    pub current: Option<(Seq<char>, nat)>,
    pub edges: Seq<EdgeView<D>>,
    pub complete: bool,
    pub cap_hit: bool,
}

/// Whether `n` was ever queued.
pub open spec fn queued(q: Seq<(Seq<char>, nat)>, n: Seq<char>) -> bool {
    exists|j: int| 0 <= j < q.len() && (#[trigger] q[j]).0 == n
}

/// One next hop of the reply of `node` at `depth`: a `dev` hop marks the
/// destination reached; a `via` hop adds its edge and queues the peer unless
/// it was queued before.
pub open spec fn hop_step<D>(
    w: WalkView<D>,
    node: Seq<char>,
    depth: nat,
    h: NextHopRep,
    owned: Seq<(Seq<char>, LinkKeyView)>,
    kv: KvView<Metrics<D>>,
) -> WalkView<D> {
    match h {
        NextHopRep::Dev { .. } => WalkView { edges: w.edges.push(term_edge(depth, node)), complete: true, ..w },
        NextHopRep::Via { iface, .. } => {
            let i = nonempty(iface);
            let peer = match i {
                Some(x) => peer_of(owned, node, x),
                None => None,
            };
            let w1 = WalkView { edges: w.edges.push(via_edge(depth, node, i, peer, edge_metrics_of(kv, node, peer, i))), ..w };
            match peer {
                Some(p) => if queued(w.queue, p) {
                    w1
                } else {
                    WalkView { queue: w.queue.push((p, depth + 1)), ..w1 }
                },
                None => w1,
            }
        },
    }
}

/// The hops of one reply, first to last.
pub open spec fn hops_step<D>(
    w: WalkView<D>,
    node: Seq<char>,
    depth: nat,
    hops: Seq<NextHopRep>,
    owned: Seq<(Seq<char>, LinkKeyView)>,
    kv: KvView<Metrics<D>>,
) -> WalkView<D>
    decreases hops.len(),
{
    if hops.len() == 0 {
        w
    } else {
        hop_step(hops_step(w, node, depth, hops.drop_last(), owned, kv), node, depth, hops.last(), owned, kv)
    }
}

/// The reply (routes, or why the hop went unanswered) for the awaited node
/// folded into the walk. Without an awaited node nothing changes.
pub open spec fn reply_step<D>(
    w: WalkView<D>,
    reply: Result<Seq<RouteRep>, Seq<char>>,
    owned: Seq<(Seq<char>, LinkKeyView)>,
    kv: KvView<Metrics<D>>,
) -> WalkView<D> {
    match w.current {
        None => w,
        Some(cur) => {
            let w0 = WalkView { current: None, ..w };
            match reply {
                Err(reason) => WalkView { edges: w0.edges.push(broken_edge(cur.1, cur.0, reason)), ..w0 },
                Ok(routes) => {
                    let hops = dedup_hops(route_hops(routes));
                    if hops.len() == 0 {
                        let why = if routes.len() == 0 { "unresolvable"@ } else { "no usable next hop"@ };
                        WalkView { edges: w0.edges.push(broken_edge(cur.1, cur.0, why)), ..w0 }
                    } else {
                        hops_step(w0, cur.0, cur.1, hops, owned, kv)
                    }
                },
            }
        },
    }
}

/// Take the next queued node: nodes at the hop cap get a cap row and are
/// skipped; the first one under the cap becomes the awaited node.
pub open spec fn advance<D>(w: WalkView<D>) -> WalkView<D>
    decreases w.queue.len() - w.head,
{
    if w.head >= w.queue.len() {
        WalkView { current: None, ..w }
    } else {
        let (n, d) = w.queue[w.head as int];
        if d >= HOP_CAP {
            advance(WalkView { head: w.head + 1, edges: w.edges.push(cap_edge(d, n)), cap_hit: true, ..w })
        } else {
            WalkView { head: w.head + 1, current: Some((n, d)), ..w }
        }
    }
}

/// The reply as the walk sees it: the routes, or why the hop went unanswered.
pub open spec fn reply_view(reply: Result<TraceHopReply, String>) -> Result<Seq<RouteRep>, Seq<char>> {
    match reply {
        Ok(r) => Ok(r.routes@),
        Err(e) => Err(e@),
    }
}

/// Breadth-first walk over the mesh's per-hop route resolutions.
pub struct TraceWalk<D> {
    queue: Vec<(String, usize)>,
    head: usize,
    current: Option<(String, usize)>,
    edges: Vec<TraceEdge<D>>,
    complete: bool,
    cap_hit: bool,
}

pub open spec fn entry_of(e: (String, usize)) -> (Seq<char>, nat) {
    (e.0@, e.1 as nat)
}

impl<D> View for TraceWalk<D> {
    type V = WalkView<D>;

    closed spec fn view(&self) -> WalkView<D> {
        WalkView {
            queue: self.queue@.map_values(|e: (String, usize)| entry_of(e)),
            head: self.head as nat,
            current: match self.current {
                Some(c) => Some(entry_of(c)),
                None => None,
            },
            edges: self.edges@.map_values(|e: TraceEdge<D>| e@),
            complete: self.complete,
            cap_hit: self.cap_hit,
        }
    }
}

/// Every node is queued at most once, no deeper than the hop cap; the
/// awaited node is under the cap.
pub open spec fn walk_wf<D>(w: WalkView<D>) -> bool {
    &&& w.head <= w.queue.len()
    &&& forall|i: int, j: int| 0 <= i < j < w.queue.len() ==> (#[trigger] w.queue[i]).0 != (#[trigger] w.queue[j]).0
    &&& forall|i: int| 0 <= i < w.queue.len() ==> (#[trigger] w.queue[i]).1 <= HOP_CAP
    &&& w.current matches Some(c) ==> c.1 < HOP_CAP
}

/// A queue is never shortened or reordered by a reply: it only grows by
/// nodes never queued before.
proof fn lemma_hops_step_wf<D>(
    w: WalkView<D>,
    node: Seq<char>,
    depth: nat,
    hops: Seq<NextHopRep>,
    owned: Seq<(Seq<char>, LinkKeyView)>,
    kv: KvView<Metrics<D>>,
)
    requires
        walk_wf(w),
        depth < HOP_CAP,
    ensures
        walk_wf(hops_step(w, node, depth, hops, owned, kv)),
        hops_step(w, node, depth, hops, owned, kv).head == w.head,
        hops_step(w, node, depth, hops, owned, kv).current == w.current,
        w.queue.is_prefix_of(hops_step(w, node, depth, hops, owned, kv).queue),
    decreases hops.len(),
{
    if hops.len() > 0 {
        lemma_hops_step_wf(w, node, depth, hops.drop_last(), owned, kv);
        let before = hops_step(w, node, depth, hops.drop_last(), owned, kv);
        let after = hop_step(before, node, depth, hops.last(), owned, kv);
        if after.queue.len() > before.queue.len() {
            let p = after.queue.last().0;
            assert(!queued(before.queue, p));
            assert forall|i: int, j: int| 0 <= i < j < after.queue.len() implies (#[trigger] after.queue[i]).0 != (#[trigger] after.queue[j]).0 by {
                if j == after.queue.len() - 1 {
                    assert(after.queue[i] == before.queue[i]);
                }
            }
        }
    }
}

impl<D: Copy> TraceWalk<D> {
    pub closed spec fn wf(&self) -> bool {
        walk_wf(self@)
    }

    /// A walk from `from` at depth 0.
    pub fn new(from: &str) -> (r: Self)
        ensures
            r.wf(),
            r@.queue == seq![(from@, 0nat)],
            r@.head == 0,
            r@.current is None,
            r@.edges.len() == 0,
            !r@.complete,
            !r@.cap_hit,
            flags_ok(r@),
            r@ == start_view::<D>(from@),
    {
        let mut queue: Vec<(String, usize)> = Vec::new();
        queue.push((String::from_str(from), 0));
        let r = TraceWalk { queue, head: 0, current: None, edges: Vec::new(), complete: false, cap_hit: false };
        proof {
            assert(r@.queue =~= seq![(from@, 0nat)]);
            assert(r@.edges =~= Seq::<EdgeView<D>>::empty());
        }
        r
    }

    /// Hand out the next node to ask (None: the walk is over).
    pub fn next_node(&mut self) -> (r: Option<String>)
        requires
            old(self).wf(),
        ensures
            final(self).wf(),
            final(self)@ == advance(old(self)@),
            opt_string_view(r) == (match final(self)@.current {
                Some(c) => Some(c.0),
                None => None,
            }),
    {
        loop
            invariant
                self.wf(),
                advance(self@) == advance(old(self)@),
            decreases self.queue@.len() - self.head,
        {
            let ghost prev = self@;
            if self.head >= self.queue.len() {
                self.current = None;
                proof {
                    assert(self@ == advance(old(self)@));
                }
                return None;
            }
            let (name, depth) = {
                let e = &self.queue[self.head];
                (e.0.clone(), e.1)
            };
            proof {
                assert(self@.queue[self.head as int] == (name@, depth as nat));
            }
            self.head = self.head + 1;
            if depth >= HOP_CAP {
                let e = broken_row(depth, &name, String::from_str("hop cap (24) reached"));
                let ghost before = self.edges@;
                self.edges.push(e);
                self.cap_hit = true;
                proof {
                    assert(self@.edges =~= before.map_values(|e: TraceEdge<D>| e@).push(cap_edge(depth as nat, name@)));
                    assert(self@ == WalkView { head: prev.head + 1, edges: prev.edges.push(cap_edge(depth as nat, name@)), cap_hit: true, ..prev });
                }
            } else {
                let reply_to = name.clone();
                self.current = Some((name, depth));
                proof {
                    assert(self@ == advance(old(self)@));
                }
                return Some(reply_to);
            }
        }
    }

    /// Fold the reply of the awaited node into the walk: `Err` carries why the
    /// hop went unanswered.
    pub fn on_reply(&mut self, reply: &Result<TraceHopReply, String>, workers: &WorkerRegistry, kv: &LwwStore<Metrics<D>>)
        requires
            old(self).wf(),
            workers.wf(),
            kv.wf(),
        ensures
            final(self).wf(),
            final(self)@ == reply_step(old(self)@, reply_view(*reply), workers.owned(), kv@),
    {
        let (node, depth) = match &self.current {
            Some(c) => (c.0.clone(), c.1),
            None => return,
        };
        self.current = None;
        let ghost w0 = self@;
        proof {
            assert(w0 == WalkView { current: None, ..old(self)@ });
        }
        match reply {
            Err(reason) => {
                let ghost before = self.edges@;
                self.edges.push(broken_row(depth, &node, reason.clone()));
                proof {
                    assert(self@.edges =~= before.map_values(|e: TraceEdge<D>| e@).push(broken_edge(depth as nat, node@, reason@)));
                }
            },
            Ok(r) => {
                let hops = all_next_hops(&r.routes);
                if hops.len() == 0 {
                    let why = if r.routes.len() == 0 {
                        String::from_str("unresolvable")
                    } else {
                        String::from_str("no usable next hop")
                    };
                    let ghost before = self.edges@;
                    self.edges.push(broken_row(depth, &node, why));
                    proof {
                        assert(self@.edges =~= before.map_values(|e: TraceEdge<D>| e@).push(broken_edge(depth as nat, node@, why@)));
                    }
                } else {
                    let owned = workers.owned_links();
                    let ghost ov = owned@.map_values(|e: (String, LinkKey)| (e.0@, e.1@));
                    let mut i: usize = 0;
                    while i < hops.len()
                        invariant
                            i <= hops@.len(),
                            ov == workers.owned(),
                            ov == owned@.map_values(|e: (String, LinkKey)| (e.0@, e.1@)),
                            kv.wf(),
                            depth < HOP_CAP,
                            walk_wf(w0),
                            walk_wf(self@),
                            self@ == hops_step(w0, node@, depth as nat, hops@.take(i as int), ov, kv@),
                        decreases hops@.len() - i,
                    {
                        proof {
                            assert(hops@.take(i + 1).drop_last() =~= hops@.take(i as int));
                            assert(hops@.take(i + 1).last() == hops@[i as int]);
                            lemma_hops_step_wf(w0, node@, depth as nat, hops@.take(i + 1), ov, kv@);
                        }
                        self.expand_hop(&node, depth, &hops[i], &owned, kv, Ghost(ov));
                        i = i + 1;
                    }
                    proof {
                        assert(hops@.take(hops@.len() as int) =~= hops@);
                    }
                }
            },
        }
    }

    /// One next hop of the awaited node's reply.
    fn expand_hop(
        &mut self,
        node: &String,
        depth: usize,
        h: &NextHopRep,
        owned: &Vec<(String, LinkKey)>,
        kv: &LwwStore<Metrics<D>>,
        Ghost(ov): Ghost<Seq<(Seq<char>, LinkKeyView)>>,
    )
        requires
            walk_wf(old(self)@),
            walk_wf(hop_step(old(self)@, node@, depth as nat, *h, ov, kv@)),
            depth < HOP_CAP,
            kv.wf(),
            ov == owned@.map_values(|e: (String, LinkKey)| (e.0@, e.1@)),
        ensures
            final(self)@ == hop_step(old(self)@, node@, depth as nat, *h, ov, kv@),
    {
        let ghost before = self.edges@;
        match h {
            NextHopRep::Dev { .. } => {
                let mut e = plain_row(depth, node);
                e.iface = Some(String::from_str("dummy_awg"));
                e.to = Some(node.clone());
                e.term = true;
                self.edges.push(e);
                self.complete = true;
                proof {
                    assert(self@.edges =~= before.map_values(|e: TraceEdge<D>| e@).push(term_edge(depth as nat, node@)));
                }
            },
            NextHopRep::Via { iface, .. } => {
                let iface: Option<String> = match iface {
                    Some(s) => if s.as_str().is_empty() { None } else { Some(s.clone()) },
                    None => None,
                };
                let peer = match &iface {
                    Some(i) => peer_for_egress(owned, node.as_str(), i.as_str(), Ghost(ov)),
                    None => None,
                };
                let e = via_row(depth, node, &iface, &peer, kv);
                self.edges.push(e);
                proof {
                    assert(self@.edges =~= before.map_values(|e: TraceEdge<D>| e@).push(e@));
                }
                match peer {
                    Some(p) => {
                        if !self.is_queued(&p) {
                            let ghost q = self.queue@;
                            self.queue.push((p, depth + 1));
                            proof {
                                assert(self.queue@.map_values(|e: (String, usize)| entry_of(e)) =~= q.map_values(
                                    |e: (String, usize)| entry_of(e),
                                ).push((p@, (depth + 1) as nat)));
                            }
                        }
                    },
                    None => {},
                }
            },
        }
    }

    fn is_queued(&self, p: &String) -> (r: bool)
        ensures
            r == queued(self@.queue, p@),
    {
        let mut i: usize = 0;
        while i < self.queue.len()
            invariant
                i <= self.queue@.len(),
                forall|j: int| 0 <= j < i ==> (#[trigger] self.queue@[j]).0@ != p@,
            decreases self.queue@.len() - i,
        {
            if self.queue[i].0 == *p {
                proof {
                    assert(self@.queue[i as int].0 == p@);
                }
                return true;
            }
            i = i + 1;
        }
        proof {
            assert forall|j: int| 0 <= j < self@.queue.len() implies (#[trigger] self@.queue[j]).0 != p@ by {
                assert(self@.queue[j] == entry_of(self.queue@[j]));
            }
        }
        false
    }

    /// The full result, once `next_node` has returned `None`.
    pub fn into_result(self, from: &str, to: Option<String>, prefix: &str, ts: u64) -> (r: TraceResult<D>)
        ensures
            r@ == (ResultView {
                from: from@,
                to: opt_string_view(to),
                prefix: prefix@,
                ts,
                complete: self@.complete,
                cap_hit: self@.cap_hit,
                edges: self@.edges,
            }),
    {
        TraceResult {
            from: String::from_str(from),
            to,
            prefix: String::from_str(prefix),
            ts,
            complete: self.complete,
            cap_hit: self.cap_hit,
            edges: self.edges,
        }
    }
}

fn plain_row<D>(depth: usize, node: &String) -> (r: TraceEdge<D>)
    ensures
        r@ == plain_edge::<D>(depth as nat, node@),
{
    TraceEdge {
        depth,
        node: node.clone(),
        iface: None,
        to: None,
        term: false,
        broken: false,
        reason: None,
        rtt_ms: None,
        loss_pct: None,
        quality: None,
        ospf_cost: None,
    }
}

fn broken_row<D>(depth: usize, node: &String, reason: String) -> (r: TraceEdge<D>)
    ensures
        r@ == broken_edge::<D>(depth as nat, node@, reason@),
{
    let mut e = plain_row(depth, node);
    e.broken = true;
    e.reason = Some(reason);
    e
}

fn via_row<D: Copy>(depth: usize, node: &String, iface: &Option<String>, peer: &Option<String>, kv: &LwwStore<Metrics<D>>) -> (r: TraceEdge<D>)
    requires
        kv.wf(),
    ensures
        r@ == via_edge(depth as nat, node@, opt_string_view(*iface), opt_string_view(*peer),
            edge_metrics_of(kv@, node@, opt_string_view(*peer), opt_string_view(*iface))),
{
    let mut e = plain_row(depth, node);
    e.iface = clone_opt(iface);
    e.to = clone_opt(peer);
    match (peer, iface) {
        (Some(p), Some(i)) => {
            let key = LinkKey { from: node.clone(), to: p.clone(), interface: i.clone() };
            match kv.get(&key) {
                Some(rec) => {
                    e.broken = rec.state == ProbeState::Conflict || rec.quality == Some(Quality::Bad) || rec.quality.is_none();
                    if rec.quality.is_none() {
                        e.reason = Some(String::from_str("no quality data"));
                    }
                    e.rtt_ms = rec.metrics.rtt_ms;
                    e.loss_pct = rec.metrics.loss_pct;
                    e.quality = match rec.quality {
                        Some(q) => Some(String::from_str(q.as_str())),
                        None => None,
                    };
                    e.ospf_cost = rec.ospf_cost;
                },
                None => {
                    e.broken = true;
                    e.reason = Some(String::from_str("no probe data for edge"));
                },
            }
        },
        _ => {
            e.broken = true;
            e.reason = Some(String::from_str("peer not resolvable for egress interface"));
        },
    }
    e
}

/// The registered peer reachable from `node` over egress `iface`. Link
/// records' `interface` is always the *from* side, matching the hop's BIRD
/// egress.
fn peer_for_egress(owned: &Vec<(String, LinkKey)>, node: &str, iface: &str, Ghost(ov): Ghost<Seq<(Seq<char>, LinkKeyView)>>) -> (r: Option<String>)
    requires
        ov == owned@.map_values(|e: (String, LinkKey)| (e.0@, e.1@)),
    ensures
        opt_string_view(r) == peer_of(ov, node@, iface@),
{
    let mut i: usize = 0;
    proof {
        assert(ov.skip(0) =~= ov);
    }
    while i < owned.len()
        invariant
            i <= owned@.len(),
            ov == owned@.map_values(|e: (String, LinkKey)| (e.0@, e.1@)),
            peer_of(ov, node@, iface@) == peer_of(ov.skip(i as int), node@, iface@),
        decreases owned@.len() - i,
    {
        let e = &owned[i];
        proof {
            assert(ov.skip(i as int)[0] == ov[i as int]);
            assert(ov.skip(i as int).drop_first() =~= ov.skip(i + 1));
        }
        if str_eq(e.0.as_str(), node) && str_eq(e.1.interface.as_str(), iface) {
            return Some(e.1.to.clone());
        }
        i = i + 1;
    }
    proof {
        assert(ov.skip(i as int).len() == 0);
    }
    None
}

/// Full trace result.
#[derive(Debug)]
pub struct TraceResult<D> {
    pub from: String,
    pub to: Option<String>,
    /// The prefix the walker resolves (loopback of `to`, or the raw prefix).
    pub prefix: String,
    /// Unix seconds when the trace ran.
    pub ts: u64,
    /// True when at least one branch reached the destination (`dev`).
    pub complete: bool,
    /// True when the hop cap cut the walk short (some branches unvisited).
    pub cap_hit: bool,
    pub edges: Vec<TraceEdge<D>>,
}

/// A trace result as plain values.
pub struct ResultView<D> {
    pub from: Seq<char>,
    pub to: Option<Seq<char>>,
    pub prefix: Seq<char>,
    pub ts: u64,
    pub complete: bool,
    pub cap_hit: bool,
    pub edges: Seq<EdgeView<D>>,
}

impl<D> View for TraceResult<D> {
    type V = ResultView<D>;

    open spec fn view(&self) -> ResultView<D> {
        ResultView {
            from: self.from@,
            to: opt_string_view(self.to),
            prefix: self.prefix@,
            ts: self.ts,
            complete: self.complete,
            cap_hit: self.cap_hit,
            edges: self.edges@.map_values(|e: TraceEdge<D>| e@),
        }
    }
}

impl<D: Copy> Clone for TraceResult<D> {
    fn clone(&self) -> (r: Self)
        ensures
            r@ == self@,
    {
        let mut edges: Vec<TraceEdge<D>> = Vec::new();
        let mut i: usize = 0;
        while i < self.edges.len()
            invariant
                i <= self.edges@.len(),
                edges@.len() == i,
                forall|j: int| 0 <= j < i ==> (#[trigger] edges@[j])@ == self.edges@[j]@,
            decreases self.edges@.len() - i,
        {
            edges.push(self.edges[i].clone());
            i = i + 1;
        }
        let r = TraceResult {
            from: self.from.clone(),
            to: clone_opt(&self.to),
            prefix: self.prefix.clone(),
            ts: self.ts,
            complete: self.complete,
            cap_hit: self.cap_hit,
            edges,
        };
        proof {
            assert(r@.edges =~= self@.edges);
        }
        r
    }
}

/// A trace request.
#[derive(Debug, Clone)]
pub struct TraceRequest {
    pub from: String,
    pub to: Option<String>,
    pub prefix: Option<String>,
}

/// The prefix a trace request resolves, or why it cannot start: the source
/// must be a registered agent; an explicit non-empty `prefix` wins, else the
/// loopback that `to` reported at registration.
pub open spec fn resolve_spec(reg: RegistryView, from: Seq<char>, to: Option<Seq<char>>, prefix: Option<Seq<char>>) -> Result<Seq<char>, Seq<char>> {
    if from.len() == 0 {
        Err("missing from"@)
    } else if !reg.contains_key(from) {
        Err("unknown source agent '"@ + from + "' (not registered)"@)
    } else if prefix is Some && prefix.unwrap().len() > 0 {
        Ok(prefix.unwrap())
    } else if to is Some && to.unwrap().len() > 0 {
        let t = to.unwrap();
        if reg.contains_key(t) && reg[t].loopback is Some {
            Ok(reg[t].loopback.unwrap())
        } else {
            Err("cannot resolve '"@ + t + "' to a prefix (agent never reported a loopback)"@)
        }
    } else {
        Err("missing to or prefix"@)
    }
}

/// Validate a trace request and resolve the prefix to walk.
pub fn resolve_prefix(workers: &WorkerRegistry, req: &TraceRequest) -> (r: Result<String, TraceError>)
    requires
        workers.wf(),
    ensures
        match r {
            Ok(p) => resolve_spec(workers@, req.from@, opt_string_view(req.to), opt_string_view(req.prefix)) == Ok::<Seq<char>, Seq<char>>(p@),
            Err(TraceError::BadRequest(m)) => resolve_spec(workers@, req.from@, opt_string_view(req.to), opt_string_view(req.prefix)) == Err::<Seq<char>, Seq<char>>(m@),
        },
{
    if req.from.as_str().is_empty() {
        return Err(TraceError::BadRequest(String::from_str("missing from")));
    }
    if !workers.has_agent(req.from.as_str()) {
        let mut m = String::from_str("unknown source agent '");
        m.append(req.from.as_str());
        m.append("' (not registered)");
        return Err(TraceError::BadRequest(m));
    }
    match &req.prefix {
        Some(p) => {
            if !p.as_str().is_empty() {
                return Ok(p.clone());
            }
        },
        None => {},
    }
    match &req.to {
        Some(to) => {
            if !to.as_str().is_empty() {
                return match workers.loopback(to.as_str()) {
                    Some(lb) => Ok(lb),
                    None => {
                        let mut m = String::from_str("cannot resolve '");
                        m.append(to.as_str());
                        m.append("' to a prefix (agent never reported a loopback)");
                        Err(TraceError::BadRequest(m))
                    },
                };
            }
        },
        None => {},
    }
    Err(TraceError::BadRequest(String::from_str("missing to or prefix")))
}

/// A cache entry as plain values: (source, stored at, result).
pub type CacheEntryView<D> = (Seq<char>, u64, ResultView<D>);

/// Whether an entry stored at `at` is still served at `now`.
pub open spec fn cache_fresh(at: u64, now: u64) -> bool {
    (if now >= at { now - at } else { 0 }) <= CACHE_TTL_NANOS
}

/// The entries still fresh at `now`, in order.
pub open spec fn fresh_entries<D>(s: Seq<CacheEntryView<D>>, now: u64) -> Seq<CacheEntryView<D>>
    decreases s.len(),
{
    if s.len() == 0 {
        Seq::empty()
    } else {
        let before = fresh_entries(s.drop_last(), now);
        if cache_fresh(s.last().1, now) {
            before.push(s.last())
        } else {
            before
        }
    }
}

/// The first entry for `from` whose result resolved `prefix`.
pub open spec fn cache_hit<D>(s: Seq<CacheEntryView<D>>, from: Seq<char>, prefix: Seq<char>) -> Option<ResultView<D>>
    decreases s.len(),
{
    if s.len() == 0 {
        None
    } else if s[0].0 == from && s[0].2.prefix == prefix {
        Some(s[0].2)
    } else {
        cache_hit(s.drop_first(), from, prefix)
    }
}

/// Short TTL cache of trace results, oldest first.
pub struct TraceCache<D> {
    entries: Vec<(String, u64, TraceResult<D>)>,
}

impl<D> View for TraceCache<D> {
    type V = Seq<CacheEntryView<D>>;

    closed spec fn view(&self) -> Seq<CacheEntryView<D>> {
        self.entries@.map_values(|e: (String, u64, TraceResult<D>)| (e.0@, e.1, e.2@))
    }
}

impl<D: Copy> TraceCache<D> {
    pub fn new() -> (r: Self)
        ensures
            r@.len() == 0,
    {
        TraceCache { entries: Vec::new() }
    }

    /// Drop expired entries, then look up a result for (`from`, `prefix`).
    /// `now` is the caller's monotonic clock in nanoseconds.
    pub fn get_at(&mut self, from: &str, prefix: &str, now: u64) -> (r: Option<TraceResult<D>>)
        ensures
            final(self)@ == fresh_entries(old(self)@, now),
            match r {
                Some(res) => cache_hit(final(self)@, from@, prefix@) == Some(res@),
                None => cache_hit(final(self)@, from@, prefix@) is None,
            },
    {
        let ghost orig = self@;
        let mut old_entries: Vec<(String, u64, TraceResult<D>)> = Vec::new();
        std::mem::swap(&mut old_entries, &mut self.entries);
        proof {
            assert(self@ =~= fresh_entries(orig.take(0), now));
        }
        let mut i: usize = 0;
        while i < old_entries.len()
            invariant
                i <= old_entries@.len(),
                orig == old(self)@,
                orig == old_entries@.map_values(|e: (String, u64, TraceResult<D>)| (e.0@, e.1, e.2@)),
                self@ == fresh_entries(orig.take(i as int), now),
            decreases old_entries@.len() - i,
        {
            let e = &old_entries[i];
            proof {
                assert(orig.take(i + 1).drop_last() =~= orig.take(i as int));
                assert(orig.take(i + 1).last() == orig[i as int]);
            }
            let age = now.saturating_sub(e.1);
            if age <= CACHE_TTL_NANOS {
                let ghost before = self@;
                self.entries.push((e.0.clone(), e.1, e.2.clone()));
                proof {
                    assert(self@ =~= before.push(orig[i as int]));
                }
            }
            i = i + 1;
        }
        proof {
            assert(orig.take(old_entries@.len() as int) =~= orig);
        }
        let mut k: usize = 0;
        proof {
            assert(self@.skip(0) =~= self@);
        }
        while k < self.entries.len()
            invariant
                k <= self@.len(),
                self@.len() == self.entries@.len(),
                self@ == fresh_entries(orig, now),
                orig == old(self)@,
                cache_hit(self@, from@, prefix@) == cache_hit(self@.skip(k as int), from@, prefix@),
            decreases self@.len() - k,
        {
            let e = &self.entries[k];
            proof {
                assert(self@.skip(k as int)[0] == self@[k as int]);
                assert(self@.skip(k as int).drop_first() =~= self@.skip(k + 1));
            }
            if str_eq(e.0.as_str(), from) && str_eq(e.2.prefix.as_str(), prefix) {
                return Some(e.2.clone());
            }
            k = k + 1;
        }
        None
    }

    /// Remember a result, dropping the oldest entry when the cache is full.
    pub fn put_at(&mut self, from: &str, result: &TraceResult<D>, now: u64)
        ensures
            final(self)@ == (if old(self)@.len() >= CACHE_MAX { old(self)@.drop_first() } else { old(self)@ }).push(
                (from@, now, result@),
            ),
    {
        let ghost before = self@;
        if self.entries.len() >= CACHE_MAX {
            self.entries.remove(0);
            proof {
                assert(self@ =~= before.drop_first());
            }
        }
        let ghost mid = self@;
        self.entries.push((String::from_str(from), now, result.clone()));
        proof {
            assert(self@ =~= mid.push((from@, now, result@)));
        }
    }
}

/// The walk never queues a node twice and never queues past the hop cap, and
/// the node it hands out is always under the cap: taking the next node and
/// folding in a reply both keep that. With finitely many registered peers the
/// walk therefore ends, and a routing loop cannot make it run forever.
pub proof fn law_walk_keeps_nodes_unique<D>(
    w: WalkView<D>,
    reply: Result<Seq<RouteRep>, Seq<char>>,
    owned: Seq<(Seq<char>, LinkKeyView)>,
    kv: KvView<Metrics<D>>,
)
    requires
        walk_wf(w),
    ensures
        walk_wf(advance(w)),
        walk_wf(reply_step(w, reply, owned, kv)),
        w.queue.is_prefix_of(reply_step(w, reply, owned, kv).queue),
        advance(w).queue == w.queue,
{
    lemma_advance_wf(w);
    if w.current is Some {
        let w0 = WalkView { current: None, ..w };
        match reply {
            Ok(routes) => {
                let hops = dedup_hops(route_hops(routes));
                if hops.len() > 0 {
                    lemma_hops_step_wf(w0, w.current.unwrap().0, w.current.unwrap().1, hops, owned, kv);
                }
            },
            Err(_) => {},
        }
    }
}

proof fn lemma_advance_wf<D>(w: WalkView<D>)
    requires
        walk_wf(w),
    ensures
        walk_wf(advance(w)),
        advance(w).queue == w.queue,
        advance(w).head <= w.queue.len(),
    decreases w.queue.len() - w.head,
{
    if w.head < w.queue.len() {
        let (n, d) = w.queue[w.head as int];
        if d >= HOP_CAP {
            lemma_advance_wf(WalkView { head: w.head + 1, edges: w.edges.push(cap_edge(d, n)), cap_hit: true, ..w });
        }
    }
}

/// The walk's flags match its rows: `complete` holds exactly when some row
/// is terminal, `cap_hit` exactly when some row lies at (or past) the hop
/// cap, and every such row is a cap row; no row lies past the cap.
pub open spec fn flags_ok<D>(w: WalkView<D>) -> bool {
    &&& forall|i: int| 0 <= i < w.edges.len() ==> (#[trigger] w.edges[i]).depth <= HOP_CAP
    &&& w.complete <==> exists|i: int| 0 <= i < w.edges.len() && (#[trigger] w.edges[i]).term
    &&& w.cap_hit <==> exists|i: int| 0 <= i < w.edges.len() && (#[trigger] w.edges[i]).depth >= HOP_CAP
    &&& forall|i: int|
        0 <= i < w.edges.len() && (#[trigger] w.edges[i]).depth >= HOP_CAP ==> w.edges[i] == cap_edge::<D>(
            w.edges[i].depth,
            w.edges[i].node,
        )
}

/// Adding one row, with the flags raised by it.
proof fn lemma_flags_push<D>(w: WalkView<D>, e: EdgeView<D>, complete: bool, cap_hit: bool)
    requires
        flags_ok(w),
        complete == (w.complete || e.term),
        cap_hit == (w.cap_hit || e.depth >= HOP_CAP),
        e.depth >= HOP_CAP ==> e == cap_edge::<D>(e.depth, e.node),
        e.depth <= HOP_CAP,
    ensures
        flags_ok(WalkView { edges: w.edges.push(e), complete, cap_hit, ..w }),
{
    let w2 = WalkView { edges: w.edges.push(e), complete, cap_hit, ..w };
    let n = w.edges.len() as int;
    assert(w2.edges[n] == e);
    assert forall|i: int| 0 <= i < n implies #[trigger] w2.edges[i] == w.edges[i] by {}
    if complete {
        if !e.term {
            let i = choose|i: int| 0 <= i < w.edges.len() && (#[trigger] w.edges[i]).term;
            assert(w2.edges[i].term);
        }
    }
    if exists|i: int| 0 <= i < w2.edges.len() && (#[trigger] w2.edges[i]).term {
        let i = choose|i: int| 0 <= i < w2.edges.len() && (#[trigger] w2.edges[i]).term;
        if i < n {
            assert(w.edges[i].term);
        }
    }
    if cap_hit {
        if !(e.depth >= HOP_CAP) {
            let i = choose|i: int| 0 <= i < w.edges.len() && (#[trigger] w.edges[i]).depth >= HOP_CAP;
            assert(w2.edges[i].depth >= HOP_CAP);
        }
    }
    if exists|i: int| 0 <= i < w2.edges.len() && (#[trigger] w2.edges[i]).depth >= HOP_CAP {
        let i = choose|i: int| 0 <= i < w2.edges.len() && (#[trigger] w2.edges[i]).depth >= HOP_CAP;
        if i < n {
            assert(w.edges[i].depth >= HOP_CAP);
        }
    }
}

proof fn lemma_hops_flags<D>(
    w: WalkView<D>,
    node: Seq<char>,
    depth: nat,
    hops: Seq<NextHopRep>,
    owned: Seq<(Seq<char>, LinkKeyView)>,
    kv: KvView<Metrics<D>>,
)
    requires
        flags_ok(w),
        depth < HOP_CAP,
    ensures
        flags_ok(hops_step(w, node, depth, hops, owned, kv)),
    decreases hops.len(),
{
    if hops.len() > 0 {
        lemma_hops_flags(w, node, depth, hops.drop_last(), owned, kv);
        let b = hops_step(w, node, depth, hops.drop_last(), owned, kv);
        match hops.last() {
            NextHopRep::Dev { .. } => {
                lemma_flags_push(b, term_edge::<D>(depth, node), true, b.cap_hit);
            },
            NextHopRep::Via { iface, .. } => {
                let i = nonempty(iface);
                let peer = match i {
                    Some(x) => peer_of(owned, node, x),
                    None => None,
                };
                let e = via_edge(depth, node, i, peer, edge_metrics_of(kv, node, peer, i));
                lemma_flags_push(b, e, b.complete, b.cap_hit);
            },
        }
    }
}

proof fn lemma_advance_flags<D>(w: WalkView<D>)
    requires
        walk_wf(w),
        flags_ok(w),
    ensures
        flags_ok(advance(w)),
    decreases w.queue.len() - w.head,
{
    if w.head < w.queue.len() {
        let (n, d) = w.queue[w.head as int];
        if d >= HOP_CAP {
            lemma_flags_push(w, cap_edge::<D>(d, n), w.complete, true);
            lemma_advance_flags(WalkView { head: w.head + 1, edges: w.edges.push(cap_edge(d, n)), cap_hit: true, ..w });
        }
    }
}

/// Over a whole walk `complete` and `cap_hit` say what its rows show: every
/// step (taking the next node, folding in a reply) keeps `complete` equal to
/// "some row is terminal" and `cap_hit` equal to "some row is a hop-cap row"
/// (a fresh walk has neither), so the result reports exactly that.
pub proof fn law_walk_flags_match_rows<D>(
    w: WalkView<D>,
    reply: Result<Seq<RouteRep>, Seq<char>>,
    owned: Seq<(Seq<char>, LinkKeyView)>,
    kv: KvView<Metrics<D>>,
)
    requires
        walk_wf(w),
        flags_ok(w),
    ensures
        flags_ok(advance(w)),
        flags_ok(reply_step(w, reply, owned, kv)),
{
    lemma_advance_flags(w);
    if w.current is Some {
        let cur = w.current.unwrap();
        let w0 = WalkView { current: None, ..w };
        match reply {
            Err(reason) => {
                lemma_flags_push(w0, broken_edge::<D>(cur.1, cur.0, reason), w0.complete, w0.cap_hit);
            },
            Ok(routes) => {
                let hops = dedup_hops(route_hops(routes));
                if hops.len() == 0 {
                    let why = if routes.len() == 0 { "unresolvable"@ } else { "no usable next hop"@ };
                    lemma_flags_push(w0, broken_edge::<D>(cur.1, cur.0, why), w0.complete, w0.cap_hit);
                } else {
                    lemma_hops_flags(w0, cur.0, cur.1, hops, owned, kv);
                }
            },
        }
    }
}

/// A fresh walk from `from`.
pub open spec fn start_view<D>(from: Seq<char>) -> WalkView<D> {
    WalkView { queue: seq![(from, 0nat)], head: 0, current: None, edges: Seq::empty(), complete: false, cap_hit: false }
}

/// What one round of a walk sees: the reply to the node handed out, and the
/// registry's links and the KV at that time.
pub type RoundInput<D> = (Result<Seq<RouteRep>, Seq<char>>, Seq<(Seq<char>, LinkKeyView)>, KvView<Metrics<D>>);

/// Rounds of a walk, first to last: each takes the next node and folds in its
/// reply.
pub open spec fn run_rounds<D>(w: WalkView<D>, rounds: Seq<RoundInput<D>>) -> WalkView<D>
    decreases rounds.len(),
{
    if rounds.len() == 0 {
        w
    } else {
        let r = rounds.last();
        reply_step(advance(run_rounds(w, rounds.drop_last())), r.0, r.1, r.2)
    }
}

/// Over a whole walk, whatever the replies: from a fresh walk, after any
/// rounds and the final step that finds nothing left, every node was queued
/// at most once and no deeper than the hop cap, no row lies past the cap,
/// `complete` holds exactly when some row is terminal, and `cap_hit` exactly
/// when some row is a hop-cap row — and the result reports these flags and
/// rows (`into_result`).
pub proof fn law_whole_walk<D>(from: Seq<char>, rounds: Seq<RoundInput<D>>)
    ensures
        walk_wf(run_rounds(start_view::<D>(from), rounds)),
        flags_ok(run_rounds(start_view::<D>(from), rounds)),
        walk_wf(advance(run_rounds(start_view::<D>(from), rounds))),
        flags_ok(advance(run_rounds(start_view::<D>(from), rounds))),
    decreases rounds.len(),
{
    let w0 = start_view::<D>(from);
    let w = run_rounds(w0, rounds);
    if rounds.len() == 0 {
        assert(walk_wf(w0));
        assert(flags_ok(w0));
    } else {
        law_whole_walk(from, rounds.drop_last());
        let p = run_rounds(w0, rounds.drop_last());
        let r = rounds.last();
        lemma_advance_wf(p);
        law_walk_flags_match_rows(p, r.0, r.1, r.2);
        law_walk_flags_match_rows(advance(p), r.0, r.1, r.2);
        law_walk_keeps_nodes_unique(advance(p), r.0, r.1, r.2);
    }
    law_walk_keeps_nodes_unique(w, Err(Seq::empty()), Seq::empty(), Map::empty());
    law_walk_flags_match_rows(w, Err(Seq::empty()), Seq::empty(), Map::empty());
}

/// A next hop that leads back to an already-queued node (a routing loop) is
/// recorded as an edge but not expanded again.
pub proof fn law_loop_recorded_not_reexpanded<D>(
    w: WalkView<D>,
    node: Seq<char>,
    depth: nat,
    h: NextHopRep,
    owned: Seq<(Seq<char>, LinkKeyView)>,
    kv: KvView<Metrics<D>>,
)
    requires
        h is Via,
        nonempty(h->Via_iface) is Some,
        peer_of(owned, node, nonempty(h->Via_iface).unwrap()) matches Some(p) && queued(w.queue, p),
    ensures
        hop_step(w, node, depth, h, owned, kv).queue == w.queue,
        hop_step(w, node, depth, h, owned, kv).edges.len() == w.edges.len() + 1,
        hop_step(w, node, depth, h, owned, kv).edges.last().to == peer_of(owned, node, nonempty(h->Via_iface).unwrap()),
{
}

/// A `dev` next hop marks the destination reached and adds a terminal row on
/// the node itself.
pub proof fn law_dev_hop_completes<D>(
    w: WalkView<D>,
    node: Seq<char>,
    depth: nat,
    h: NextHopRep,
    owned: Seq<(Seq<char>, LinkKeyView)>,
    kv: KvView<Metrics<D>>,
)
    requires
        h is Dev,
    ensures
        hop_step(w, node, depth, h, owned, kv).complete,
        hop_step(w, node, depth, h, owned, kv).edges.last().term,
        hop_step(w, node, depth, h, owned, kv).edges.last().to == Some(node),
        hop_step(w, node, depth, h, owned, kv).queue == w.queue,
{
}

/// Check that `agent` can be asked for a trace hop, and give the command a
/// fresh random id.
pub fn trace_hop_id(workers: &WorkerRegistry, agent: &str) -> (r: Result<String, String>)
    requires
        workers.wf(),
    ensures
        r is Ok <==> workers@.contains_key(agent@),
        r matches Err(m) ==> m@ == "agent '"@ + agent@ + "' is not registered"@,
        r matches Ok(id) ==> crate::clock::uuid_v4_text(id@),
{
    if !workers.has_agent(agent) {
        let mut m = String::from_str("agent '");
        m.append(agent);
        m.append("' is not registered");
        return Err(m);
    }
    Ok(crate::clock::uuid4())
}

/// Queue the trace command `id` (resolve `target`) for `agent`. Refused when
/// the agent is unknown or already holds a command with that id.
pub fn enqueue_trace_hop(workers: &mut WorkerRegistry, agent: &str, id: &str, target: &str) -> (r: Result<(), String>)
    requires
        old(workers).wf(),
    ensures
        final(workers).wf(),
        final(workers).owned() == old(workers).owned(),
        exists|cmd: WorkCmd| #![trigger queue_has_key(old(workers)@[agent@].queue, cmd)] {
            &&& (cmd matches WorkCmd::Trace { id: i, target: t, traceparent: p } && i@ == id@ && t@ == target@ && p is None)
            &&& (r is Ok <==> (old(workers)@.contains_key(agent@) && !queue_has_key(old(workers)@[agent@].queue, cmd)))
            &&& final(workers)@ == (if r is Ok {
                old(workers)@.insert(agent@, WorkerView { queue: old(workers)@[agent@].queue.push(cmd), ..old(workers)@[agent@] })
            } else {
                old(workers)@
            })
        },
        r matches Err(m) ==> m@ == "cannot queue trace for '"@ + agent@ + "'"@,
{
    let cmd = WorkCmd::Trace { id: String::from_str(id), target: String::from_str(target), traceparent: None };
    let ghost c = cmd;
    let ok = workers.push(agent, cmd);
    proof {
        let _ = queue_has_key(old(workers)@[agent@].queue, c);
    }
    if ok {
        Ok(())
    } else {
        let mut m = String::from_str("cannot queue trace for '");
        m.append(agent);
        m.append("'");
        Err(m)
    }
}

/// An edge's health follows its link's record: with no resolvable peer or
/// no record it is broken; a bad class, a missing class or an overlapping
/// (conflict) probe marks it broken; a good, acceptable or poor class on a
/// non-conflicting record leaves it healthy. The shown cost and round-trip
/// are the record's.
pub proof fn law_edge_health_follows_record<D>(kv: KvView<Metrics<D>>, node: Seq<char>, p: Seq<char>, i: Seq<char>)
    ensures
        edge_metrics_of(kv, node, None, Some(i)).broken,
        edge_metrics_of(kv, node, Some(p), None).broken,
        !kv.contains_key((node, p, i)) ==> edge_metrics_of(kv, node, Some(p), Some(i)).broken,
        kv.contains_key((node, p, i)) ==> {
            let rec = kv[(node, p, i)];
            let e = edge_metrics_of(kv, node, Some(p), Some(i));
            &&& rec.quality == Some(Quality::Bad) ==> e.broken
            &&& rec.quality is None ==> e.broken
            &&& rec.state == ProbeState::Conflict ==> e.broken
            &&& (rec.state != ProbeState::Conflict && (rec.quality == Some(Quality::Good) || rec.quality == Some(Quality::Acceptable)
                || rec.quality == Some(Quality::Poor))) ==> !e.broken
            &&& e.ospf_cost == rec.ospf_cost
            &&& e.rtt_ms == rec.metrics.rtt_ms
            &&& e.loss_pct == rec.metrics.loss_pct
        },
{
}

/// A cache answer belongs to the requested source and destination: a hit is
/// the result of a stored walk from `from` that resolved `prefix`, and there
/// is a hit whenever such a walk is stored.
pub proof fn law_cache_hit_matches_request<D>(s: Seq<CacheEntryView<D>>, from: Seq<char>, prefix: Seq<char>)
    ensures
        cache_hit(s, from, prefix) matches Some(r) ==> r.prefix == prefix && exists|i: int|
            0 <= i < s.len() && s[i].0 == from && #[trigger] s[i].2 == r,
        (exists|i: int| 0 <= i < s.len() && (#[trigger] s[i]).0 == from && s[i].2.prefix == prefix) ==> cache_hit(s, from, prefix) is Some,
    decreases s.len(),
{
    if s.len() > 0 {
        law_cache_hit_matches_request(s.drop_first(), from, prefix);
        if s[0].0 == from && s[0].2.prefix == prefix {
        } else {
            if let Some(r) = cache_hit(s, from, prefix) {
                let i = choose|i: int| 0 <= i < s.drop_first().len() && s.drop_first()[i].0 == from && #[trigger] s.drop_first()[i].2 == r;
                assert(s[i + 1] == s.drop_first()[i]);
            }
            if exists|i: int| 0 <= i < s.len() && (#[trigger] s[i]).0 == from && s[i].2.prefix == prefix {
                let i = choose|i: int| 0 <= i < s.len() && (#[trigger] s[i]).0 == from && s[i].2.prefix == prefix;
                assert(i > 0);
                assert(s.drop_first()[i - 1] == s[i]);
            }
        }
    }
}

} // verus!
