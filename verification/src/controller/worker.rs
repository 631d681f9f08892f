//! Agent registry and the controller's work queue.
//!
//! The controller decides what to probe and what cost to apply; each known
//! agent owns a per-link work queue that the scheduler fills and the agent
//! drains by polling `POST /v1/agent/work`.

use crate::assoc::{AssocMap, KeyView};
use crate::controller::fence::elapsed;
use crate::controller::model::{link_id, LinkKey, LinkKeyView};
use vstd::prelude::*;

verus! {

/// Probe tier.
#[derive(Debug, Clone, Copy, PartialEq, Eq, Hash, Structural)]
pub enum Tier {
    Always,
    Throughput,
}

/// A command the controller dispatches to an agent.
#[derive(Debug)]
pub enum WorkCmd {
    Probe {
        id: String,
        tier: Tier,
        token: Option<String>,
        link: LinkKey,
        /// W3C `traceparent` of the dispatch span, echoed back by the agent so
        /// the reply/report spans join the same trace.
        traceparent: Option<String>,
    },
    ApplyCost { id: String, link: LinkKey, cost: u32, traceparent: Option<String> },
    /// Resolve `target` against the agent's routing table (path trace hop).
    Trace { id: String, target: String, traceparent: Option<String> },
}

/// Second half of a probe's dedup key.
pub open spec fn tier_kind(t: Tier) -> Seq<char> {
    match t {
        Tier::Always => "probe/Always"@,
        Tier::Throughput => "probe/Throughput"@,
    }
}

/// Dedup key of a queued command: link id + kind/tier (a trace is keyed by
/// its own id, so traces never collapse into one another).
pub open spec fn cmd_key(c: WorkCmd) -> (Seq<char>, Seq<char>) {
    match c {
        WorkCmd::Probe { tier, link, .. } => (link_id(link@), tier_kind(tier)),
        WorkCmd::ApplyCost { link, .. } => (link_id(link@), "apply"@),
        WorkCmd::Trace { id, .. } => ("trace"@, id@),
    }
}

/// Whether a queue already holds a command with the key of `c`.
pub open spec fn queue_has_key(q: Seq<WorkCmd>, c: WorkCmd) -> bool {
    exists|j: int| 0 <= j < q.len() && cmd_key(#[trigger] q[j]) == cmd_key(c)
}

/// Dedup key for a queued command: link id + kind/tier.
pub fn cmd_key_of(c: &WorkCmd) -> (r: (String, String))
    ensures
        (r.0@, r.1@) == cmd_key(*c),
{
    match c {
        WorkCmd::Probe { link, tier, .. } => {
            let kind = match tier {
                Tier::Always => String::from_str("probe/Always"),
                Tier::Throughput => String::from_str("probe/Throughput"),
            };
            (link.id(), kind)
        },
        WorkCmd::ApplyCost { link, .. } => (link.id(), String::from_str("apply")),
        WorkCmd::Trace { id, .. } => (String::from_str("trace"), id.clone()),
    }
}

/// Key of a per-tier last-issue stamp: (link id, tier).
#[derive(Debug)]
pub struct IssueKey {
    pub link: String,
    pub tier: Tier,
}

impl View for IssueKey {
    type V = (Seq<char>, Tier);

    open spec fn view(&self) -> (Seq<char>, Tier) {
        (self.link@, self.tier)
    }
}

impl KeyView for IssueKey {
    fn key_eq(&self, other: &Self) -> (r: bool) {
        self.link == other.link && self.tier == other.tier
    }

    fn key_clone(&self) -> (r: Self) {
        IssueKey { link: self.link.clone(), tier: self.tier }
    }
}

/// One agent as plain values.
#[verifier::ext_equal]
pub struct WorkerView {
    pub links: Seq<LinkKeyView>,
    pub queue: Seq<WorkCmd>,
    /// link id -> cost the controller has sent (even if not yet acked)
    pub applied_sent: Map<Seq<char>, u32>,
    /// (link id, tier) -> unix secs of last issue
    pub last_issue: Map<(Seq<char>, Tier), u64>,
    pub last_seen: u64,
    pub loopback: Option<Seq<char>>,
}

/// Whether a probe of `tier` on link `id` is due at `now`.
pub open spec fn due(w: WorkerView, id: Seq<char>, tier: Tier, now: u64, interval: u64) -> bool {
    !w.last_issue.contains_key((id, tier)) || elapsed(now, w.last_issue[(id, tier)]) >= interval
}

/// The links after registering `new` on top of `have`: each new link is
/// appended unless already present.
pub open spec fn add_links(have: Seq<LinkKeyView>, new: Seq<LinkKeyView>) -> Seq<LinkKeyView>
    decreases new.len(),
{
    if new.len() == 0 {
        have
    } else {
        let before = add_links(have, new.drop_last());
        if before.contains(new.last()) {
            before
        } else {
            before.push(new.last())
        }
    }
}

/// Per-agent state: its managed links, pending work, last-issued timestamps
/// per tier, and the last cost the controller told it to apply.
pub struct Worker {
    links: Vec<LinkKey>,
    queue: Vec<WorkCmd>,
    applied_sent: AssocMap<String, u32>,
    last_issue: AssocMap<IssueKey, u64>,
    last_seen: u64,
    loopback: Option<String>,
}

pub open spec fn opt_string_view(s: Option<String>) -> Option<Seq<char>> {
    match s {
        Some(x) => Some(x@),
        None => None,
    }
}

impl View for Worker {
    type V = WorkerView;

    closed spec fn view(&self) -> WorkerView {
        WorkerView {
            links: self.links@.map_values(|l: LinkKey| l@),
            queue: self.queue@,
            applied_sent: self.applied_sent.map(),
            last_issue: self.last_issue.map(),
            last_seen: self.last_seen,
            loopback: opt_string_view(self.loopback),
        }
    }
}

pub open spec fn empty_worker(now: u64) -> WorkerView {
    WorkerView {
        links: Seq::empty(),
        queue: Seq::empty(),
        applied_sent: Map::empty(),
        last_issue: Map::empty(),
        last_seen: now,
        loopback: None,
    }
}

/// The registry after `agent`'s queue is drained at `now`.
pub open spec fn drained_at(reg: RegistryView, agent: Seq<char>, now: u64) -> RegistryView {
    if reg.contains_key(agent) {
        reg.insert(agent, WorkerView { queue: Seq::empty(), last_seen: now, ..reg[agent] })
    } else {
        reg
    }
}

/// The registry after `agent` is seen at `now`.
pub open spec fn seen_at(reg: RegistryView, agent: Seq<char>, now: u64) -> RegistryView {
    if reg.contains_key(agent) {
        reg.insert(agent, WorkerView { last_seen: now, ..reg[agent] })
    } else {
        reg
    }
}

/// The keys of a list of links.
pub open spec fn key_views(ls: Seq<LinkKey>) -> Seq<LinkKeyView> {
    ls.map_values(|l: LinkKey| l@)
}

/// The registry after `agent` (re)registers `links` (and possibly its
/// loopback) at `now`: the links are added, pending work is dropped, and the
/// agent is seen now.
pub open spec fn after_register(
    reg: RegistryView,
    agent: Seq<char>,
    links: Seq<LinkKeyView>,
    loopback: Option<Seq<char>>,
    now: u64,
) -> RegistryView {
    let w = if reg.contains_key(agent) { reg[agent] } else { empty_worker(now) };
    reg.insert(agent, WorkerView {
        links: add_links(w.links, links),
        queue: Seq::empty(),
        last_seen: now,
        loopback: if loopback is Some { loopback } else { w.loopback },
        ..w
    })
}

impl Worker {
    pub closed spec fn wf(&self) -> bool {
        self.applied_sent.wf() && self.last_issue.wf()
    }

    fn empty(now: u64) -> (r: Worker)
        ensures
            r.wf(),
            r@ == empty_worker(now),
    {
        let r = Worker {
            links: Vec::new(),
            queue: Vec::new(),
            applied_sent: AssocMap::new(),
            last_issue: AssocMap::new(),
            last_seen: now,
            loopback: None,
        };
        assert(r@ =~= empty_worker(now));
        r
    }

    fn is_due(&self, link: &str, tier: Tier, now: u64, interval: u64) -> (r: bool)
        requires
            self.wf(),
        ensures
            r == due(self@, link@, tier, now, interval),
    {
        let key = IssueKey { link: String::from_str(link), tier };
        match self.last_issue.get(&key) {
            Some(t) => now.saturating_sub(*t) >= interval,
            None => true,
        }
    }

    fn mark_issued(&mut self, link: &str, tier: Tier, now: u64)
        requires
            old(self).wf(),
        ensures
            final(self).wf(),
            final(self)@ == (WorkerView {
                last_issue: old(self)@.last_issue.insert((link@, tier), now),
                ..old(self)@
            }),
    {
        self.last_issue.insert(IssueKey { link: String::from_str(link), tier }, now);
        assert(self@ =~= (WorkerView {
            last_issue: old(self)@.last_issue.insert((link@, tier), now),
            ..old(self)@
        }));
    }

    fn has_key(&self, key: &(String, String)) -> (r: bool)
        ensures
            r == exists|j: int| 0 <= j < self@.queue.len() && #[trigger] cmd_key(self@.queue[j]) == (key.0@, key.1@),
    {
        let mut i: usize = 0;
        while i < self.queue.len()
            invariant
                i <= self.queue@.len(),
                self@.queue == self.queue@,
                forall|j: int| 0 <= j < i ==> #[trigger] cmd_key(self.queue@[j]) != (key.0@, key.1@),
            decreases self.queue@.len() - i,
        {
            let k = cmd_key_of(&self.queue[i]);
            if k.0 == key.0 && k.1 == key.1 {
                return true;
            }
            i = i + 1;
        }
        false
    }

    fn add_links(&mut self, links: Vec<LinkKey>) -> (fresh: bool)
        requires
            old(self).wf(),
        ensures
            final(self).wf(),
            final(self)@ == (WorkerView { links: add_links(old(self)@.links, links@.map_values(|l: LinkKey| l@)), ..old(self)@ }),
            fresh == exists|i: int| 0 <= i < links@.len() && !old(self)@.links.contains(#[trigger] links@[i]@),
    {
        let ghost new_views = links@.map_values(|l: LinkKey| l@);
        let ghost input = links@;
        let ghost start = old(self)@.links;
        let mut fresh = false;
        let mut rest = links;
        let n = rest.len();
        let mut i: usize = 0;
        while i < n
            invariant
                self.wf(),
                n == new_views.len(),
                n == input.len(),
                new_views == input.map_values(|l: LinkKey| l@),
                i <= n,
                rest@.len() == n - i,
                forall|j: int| 0 <= j < rest@.len() ==> #[trigger] rest@[j] == input[i + j],
                self@ == (WorkerView { links: add_links(start, new_views.take(i as int)), ..old(self)@ }),
                fresh == exists|j: int| 0 <= j < i && !start.contains(#[trigger] new_views[j]),
                forall|j: int| 0 <= j < i ==> add_links(start, new_views.take(i as int)).contains(#[trigger] new_views[j]),
                forall|x: LinkKeyView| start.contains(x) ==> add_links(start, new_views.take(i as int)).contains(x),
                forall|x: LinkKeyView| #[trigger] add_links(start, new_views.take(i as int)).contains(x) ==> start.contains(x) || exists|j: int| 0 <= j < i && new_views[j] == x,
            decreases n - i,
        {
            assert(rest@[0] == input[i as int]);
            let l = rest.remove(0);
            let ghost lv = l@;
            assert(lv == new_views[i as int]);
            let ghost before = add_links(start, new_views.take(i as int));
            assert(new_views.take(i + 1).drop_last() =~= new_views.take(i as int));
            assert(new_views.take(i + 1).last() == lv);
            let mut present = false;
            let mut j: usize = 0;
            while j < self.links.len()
                invariant
                    j <= self.links@.len(),
                    lv == l@,
                    self@.links == before,
                    self@.links == self.links@.map_values(|l: LinkKey| l@),
                    present <==> exists|a: int| 0 <= a < j && #[trigger] self.links@[a]@ == lv,
                decreases self.links@.len() - j,
            {
                let same = self.links[j].key_eq(&l);
                if same {
                    present = true;
                }
                proof {
                    if same {
                        assert(self.links@[j as int]@ == lv);
                    }
                    if present && !same {
                        let a = choose|a: int| 0 <= a < j && #[trigger] self.links@[a]@ == lv;
                        assert(0 <= a < j + 1);
                    }
                }
                j = j + 1;
            }
            proof {
                if present {
                    let a = choose|a: int| 0 <= a < j && #[trigger] self.links@[a]@ == lv;
                    assert(self@.links[a] == lv);
                    assert(before.contains(lv));
                } else {
                    assert forall|a: int| 0 <= a < before.len() implies before[a] != lv by {
                        assert(self.links@[a]@ == before[a]);
                    }
                    assert(!before.contains(lv));
                }
                assert forall|jj: int| 0 <= jj < rest@.len() implies #[trigger] rest@[jj] == input[i + 1 + jj] by {
                }
            }
            if !present {
                fresh = true;
                self.links.push(l);
            }
            proof {
                let after = add_links(start, new_views.take(i + 1));
                assert(self.links@.map_values(|l: LinkKey| l@) =~= after);
                assert(self@ =~= (WorkerView { links: after, ..old(self)@ }));
                assert forall|j: int| 0 <= j < i + 1 implies after.contains(#[trigger] new_views[j]) by {
                    if j < i {
                        assert(before.contains(new_views[j]));
                        let k = choose|k: int| 0 <= k < before.len() && before[k] == new_views[j];
                        assert(after[k] == new_views[j]);
                    } else if present {
                    } else {
                        assert(after.last() == lv);
                    }
                }
                assert forall|x: LinkKeyView| start.contains(x) implies after.contains(x) by {
                    assert(before.contains(x));
                    let k = choose|k: int| 0 <= k < before.len() && before[k] == x;
                    assert(after[k] == x);
                }
                assert forall|x: LinkKeyView| #[trigger] after.contains(x) implies start.contains(x) || exists|j: int| 0 <= j < i + 1 && new_views[j] == x by {
                    let k = choose|k: int| 0 <= k < after.len() && #[trigger] after[k] == x;
                    if k < before.len() {
                        assert(before[k] == x);
                        assert(before.contains(x));
                    } else {
                        assert(x == lv);
                        assert(new_views[i as int] == x);
                    }
                }
                if !present {
                    if start.contains(lv) {
                        assert(before.contains(lv));
                    }
                    assert(!start.contains(new_views[i as int]));
                } else if !start.contains(lv) {
                    // Seen earlier in this batch, so already counted.
                    let k = choose|k: int| 0 <= k < i && new_views[k] == lv;
                    assert(!start.contains(new_views[k]));
                }
                assert(fresh == exists|j: int| 0 <= j < i + 1 && !start.contains(#[trigger] new_views[j]));
            }
            i = i + 1;
        }
        proof {
            assert(new_views.take(n as int) =~= new_views);
            assert forall|j: int| 0 <= j < n implies #[trigger] new_views[j] == input[j]@ by {}
            if fresh {
                let j = choose|j: int| 0 <= j < n && !start.contains(#[trigger] new_views[j]);
                assert(!start.contains(input[j]@));
            }
            if exists|j: int| 0 <= j < input.len() && !start.contains(#[trigger] input[j]@) {
                let j = choose|j: int| 0 <= j < input.len() && !start.contains(#[trigger] input[j]@);
                assert(!start.contains(new_views[j]));
            }
        }
        fresh
    }
}

/// The registry as plain values: agent name -> agent.
pub type RegistryView = Map<Seq<char>, WorkerView>;

/// (agent, link) pairs in registry order.
pub open spec fn pairs_of(agent: Seq<char>, links: Seq<LinkKeyView>) -> Seq<(Seq<char>, LinkKeyView)> {
    links.map_values(|l: LinkKeyView| (agent, l))
}

pub open spec fn owned_of(entries: Seq<(Seq<char>, WorkerView)>) -> Seq<(Seq<char>, LinkKeyView)>
    decreases entries.len(),
{
    if entries.len() == 0 {
        Seq::empty()
    } else {
        owned_of(entries.drop_last()) + pairs_of(entries.last().0, entries.last().1.links)
    }
}

/// Thread-safe registry of agents (the locking lives with the caller).
pub struct WorkerRegistry {
    inner: AssocMap<String, Worker>,
}

impl View for WorkerRegistry {
    type V = RegistryView;

    closed spec fn view(&self) -> RegistryView {
        self.inner.map().map_values(|w: Worker| w@)
    }
}

impl WorkerRegistry {
    pub closed spec fn wf(&self) -> bool {
        &&& self.inner.wf()
        &&& forall|i: int| 0 <= i < self.inner.seq().len() ==> (#[trigger] self.inner.seq()[i]).1.wf()
    }

    /// The agents in registry order, as plain values.
    pub closed spec fn entries(&self) -> Seq<(Seq<char>, WorkerView)> {
        self.inner.seq().map_values(|e: (String, Worker)| (e.0@, e.1@))
    }

    /// All (agent, link) pairs in registry order.
    pub open spec fn owned(&self) -> Seq<(Seq<char>, LinkKeyView)> {
        owned_of(self.entries())
    }

    proof fn lemma_view(&self)
        requires
            self.wf(),
        ensures
            forall|k: Seq<char>| #[trigger] self@.contains_key(k) <==> self.inner.map().contains_key(k),
            forall|k: Seq<char>| #[trigger] self@.contains_key(k) ==> self@[k] == self.inner.map()[k]@ && self.inner.map()[k].wf(),
            self.entries().len() == self.inner.seq().len(),
            forall|i: int| 0 <= i < self.inner.seq().len() ==> #[trigger] self.entries()[i] == (self.inner.seq()[i].0@, self.inner.seq()[i].1@),
            forall|i: int| 0 <= i < self.inner.seq().len() ==> #[trigger] self@.contains_key(self.entries()[i].0) && self@[self.entries()[i].0] == self.entries()[i].1,
    {
        self.inner.lemma_map_domain();
        assert forall|i: int| 0 <= i < self.inner.seq().len() implies #[trigger] self@.contains_key(self.entries()[i].0) && self@[self.entries()[i].0] == self.entries()[i].1 by {
            self.inner.lemma_index_of(i);
        }
    }

    pub fn new() -> (r: Self)
        ensures
            r.wf(),
            r@ == Map::<Seq<char>, WorkerView>::empty(),
            r.owned() == Seq::<(Seq<char>, LinkKeyView)>::empty(),
    {
        let r = WorkerRegistry { inner: AssocMap::new() };
        assert(r@ =~= Map::<Seq<char>, WorkerView>::empty());
        assert(r.entries() =~= Seq::<(Seq<char>, WorkerView)>::empty());
        r
    }

    /// Take agent `i` out for an update (a placeholder stands in).
    fn take_at(&mut self, i: usize) -> (w: Worker)
        requires
            old(self).wf(),
            i < old(self).inner.seq().len(),
        ensures
            final(self).inner.wf(),
            w == old(self).inner.seq()[i as int].1,
            w.wf(),
            final(self).inner.seq().len() == old(self).inner.seq().len(),
            forall|j: int| 0 <= j < old(self).inner.seq().len() && j != i ==> final(self).inner.seq()[j] == old(self).inner.seq()[j],
            final(self).inner.seq()[i as int].0 == old(self).inner.seq()[i as int].0,
            final(self).inner.seq()[i as int].1.wf(),
    {
        let w = self.inner.replace_at(i, Worker::empty(0));
        w
    }

    /// Put an updated agent back at position `i`.
    fn put_at(&mut self, i: usize, w: Worker, Ghost(before): Ghost<WorkerRegistry>)
        requires
            before.wf(),
            old(self).inner.wf(),
            w.wf(),
            i < before.inner.seq().len(),
            old(self).inner.seq().len() == before.inner.seq().len(),
            forall|j: int| 0 <= j < before.inner.seq().len() && j != i ==> old(self).inner.seq()[j] == before.inner.seq()[j],
            old(self).inner.seq()[i as int].0 == before.inner.seq()[i as int].0,
        ensures
            final(self).wf(),
            final(self)@ == before@.insert(before.inner.seq()[i as int].0@, w@),
            final(self).entries() == before.entries().update(i as int, (before.inner.seq()[i as int].0@, w@)),
    {
        self.inner.replace_at(i, w);
        proof {
            assert(self.inner.seq() =~= before.inner.seq().update(i as int, (before.inner.seq()[i as int].0, w)));
            before.lemma_view();
            before.inner.lemma_index_of(i as int);
            assert forall|j: int| 0 <= j < self.inner.seq().len() implies (#[trigger] self.inner.seq()[j]).1.wf() by {
                if j != i {
                    assert(self.inner.seq()[j] == before.inner.seq()[j]);
                }
            }
            self.lemma_view();
            assert forall|k: Seq<char>| #[trigger] self.inner.map().contains_key(k) == before.inner.map().contains_key(k) by {
                if self.inner.map().contains_key(k) {
                    self.inner.lemma_map_domain();
                    let j = self.inner.index_of(k);
                    before.inner.lemma_index_of(j);
                }
                if before.inner.map().contains_key(k) {
                    before.inner.lemma_map_domain();
                    let j = before.inner.index_of(k);
                    self.inner.lemma_index_of(j);
                }
            }
            assert forall|k: Seq<char>| #[trigger] self.inner.map().contains_key(k) implies self.inner.map()[k]@ == before@.insert(before.inner.seq()[i as int].0@, w@)[k] by {
                self.inner.lemma_map_domain();
                let j = self.inner.index_of(k);
                self.inner.lemma_index_of(j);
                before.inner.lemma_index_of(j);
            }
            assert(self@ =~= before@.insert(before.inner.seq()[i as int].0@, w@));
            assert(self.entries() =~= before.entries().update(i as int, (before.inner.seq()[i as int].0@, w@)));
        }
    }

    /// Register (or refresh) an agent and its managed links at time `now`.
    /// Returns true when some link is new for the agent (so the scheduler
    /// seeds the policy snapshot).
    ///
    /// A registration starts a clean slate: any work the scheduler queued while
    /// the agent was away is dropped, so a (re)connecting agent only receives
    /// commands issued after it came back.
    pub fn register_at(&mut self, agent: &str, links: Vec<LinkKey>, loopback: Option<String>, now: u64) -> (fresh: bool)
        requires
            old(self).wf(),
        ensures
            final(self).wf(),
            final(self)@ == after_register(old(self)@, agent@, links@.map_values(|l: LinkKey| l@), opt_string_view(loopback), now),
            ({
                let w = if old(self)@.contains_key(agent@) { old(self)@[agent@] } else { empty_worker(now) };
                fresh == exists|i: int| 0 <= i < links@.len() && !w.links.contains(#[trigger] links@[i]@)
            }),
    {
        let key = String::from_str(agent);
        let i = match self.inner.find(&key) {
            Some(i) => i,
            None => {
                proof {
                    self.lemma_view();
                }
                self.inner.insert(key, Worker::empty(now));
                proof {
                    assert(self.inner.seq().len() == old(self).inner.seq().len() + 1);
                    assert forall|j: int| 0 <= j < self.inner.seq().len() implies (#[trigger] self.inner.seq()[j]).1.wf() by {
                        if j < old(self).inner.seq().len() {
                            assert(self.inner.seq()[j] == old(self).inner.seq()[j]);
                        }
                    }
                    self.lemma_view();
                    assert(self@ =~= old(self)@.insert(agent@, empty_worker(now)));
                }
                self.inner.len() - 1
            },
        };
        let ghost mid = *self;
        proof {
            mid.lemma_view();
            mid.inner.lemma_index_of(i as int);
            assert(mid@[agent@] == (if old(self)@.contains_key(agent@) { old(self)@[agent@] } else { empty_worker(now) }));
        }
        let mut w = self.take_at(i);
        w.last_seen = now;
        w.queue = Vec::new();
        if loopback.is_some() {
            w.loopback = loopback;
        }
        let fresh = w.add_links(links);
        self.put_at(i, w, Ghost(mid));
        proof {
            let ww = if old(self)@.contains_key(agent@) { old(self)@[agent@] } else { empty_worker(now) };
            assert(self@ =~= old(self)@.insert(agent@, WorkerView {
                links: add_links(ww.links, links@.map_values(|l: LinkKey| l@)),
                queue: Seq::empty(),
                last_seen: now,
                loopback: if loopback is Some { opt_string_view(loopback) } else { ww.loopback },
                ..ww
            }));
        }
        fresh
    }

    /// Register (or refresh) an agent and its managed links, stamped with the
    /// wall clock. Returns true when some link is new for the agent.
    pub fn register(&mut self, agent: &str, links: Vec<LinkKey>) -> (fresh: bool)
        requires
            old(self).wf(),
        ensures
            final(self).wf(),
            exists|now: u64| final(self)@ == #[trigger] after_register(old(self)@, agent@, key_views(links@), None, now),
            ({
                let have = if old(self)@.contains_key(agent@) { old(self)@[agent@].links } else { Seq::empty() };
                fresh == exists|i: int| 0 <= i < links@.len() && !have.contains(#[trigger] links@[i]@)
            }),
    {
        let now = crate::clock::wall_clock_secs();
        let ghost lv = key_views(links@);
        let fresh = self.register_at(agent, links, None, now);
        proof {
            assert(opt_string_view(None) == None::<Seq<char>>);
            assert(self@ == after_register(old(self)@, agent@, lv, None, now));
        }
        fresh
    }

    /// Whether `agent` has registered.
    pub fn has_agent(&self, agent: &str) -> (r: bool)
        requires
            self.wf(),
        ensures
            r == self@.contains_key(agent@),
    {
        proof {
            self.lemma_view();
        }
        self.inner.contains(&String::from_str(agent))
    }

    /// The loopback address an agent reported at registration, if any.
    pub fn loopback(&self, agent: &str) -> (r: Option<String>)
        requires
            self.wf(),
        ensures
            opt_string_view(r) == (if self@.contains_key(agent@) { self@[agent@].loopback } else { None }),
    {
        proof {
            self.lemma_view();
        }
        match self.inner.get(&String::from_str(agent)) {
            Some(w) => match &w.loopback {
                Some(l) => Some(l.clone()),
                None => None,
            },
            None => None,
        }
    }

    /// How many known agents there are.
    pub fn len(&self) -> (r: usize)
        requires
            self.wf(),
        ensures
            r == self.entries().len(),
    {
        proof {
            self.lemma_view();
        }
        self.inner.len()
    }

    pub fn is_empty(&self) -> (r: bool)
        requires
            self.wf(),
        ensures
            r == (self.entries().len() == 0),
    {
        self.len() == 0
    }

    /// All (agent, link) pairs owned by registered agents.
    pub fn owned_links(&self) -> (r: Vec<(String, LinkKey)>)
        requires
            self.wf(),
        ensures
            r@.map_values(|e: (String, LinkKey)| (e.0@, e.1@)) == self.owned(),
    {
        let mut out: Vec<(String, LinkKey)> = Vec::new();
        let n = self.inner.len();
        let mut i: usize = 0;
        proof {
            self.lemma_view();
            assert(self.entries().take(0) =~= Seq::<(Seq<char>, WorkerView)>::empty());
        }
        while i < n
            invariant
                self.wf(),
                n == self.inner.seq().len(),
                self.entries().len() == n,
                forall|a: int| 0 <= a < n ==> #[trigger] self.entries()[a] == (self.inner.seq()[a].0@, self.inner.seq()[a].1@),
                i <= n,
                out@.map_values(|e: (String, LinkKey)| (e.0@, e.1@)) == owned_of(self.entries().take(i as int)),
            decreases n - i,
        {
            let e = self.inner.entry(i);
            let name = &e.0;
            let w = &e.1;
            let ghost base = out@.map_values(|e: (String, LinkKey)| (e.0@, e.1@));
            let mut j: usize = 0;
            while j < w.links.len()
                invariant
                    j <= w.links@.len(),
                    w@.links == w.links@.map_values(|l: LinkKey| l@),
                    out@.map_values(|e: (String, LinkKey)| (e.0@, e.1@)) == base + pairs_of(name@, w@.links.take(j as int)),
                decreases w.links@.len() - j,
            {
                let ghost prev = out@;
                out.push((name.clone(), w.links[j].clone()));
                proof {
                    assert(out@ == prev.push(out@.last()));
                    assert(out@.map_values(|e: (String, LinkKey)| (e.0@, e.1@)) =~= prev.map_values(|e: (String, LinkKey)| (e.0@, e.1@)).push((name@, w@.links[j as int])));
                    assert(pairs_of(name@, w@.links.take(j + 1)) =~= pairs_of(name@, w@.links.take(j as int)).push((name@, w@.links[j as int])));
                    assert(out@.map_values(|e: (String, LinkKey)| (e.0@, e.1@)) =~= base + pairs_of(name@, w@.links.take(j + 1)));
                }
                j = j + 1;
            }
            proof {
                assert(w@.links.take(j as int) =~= w@.links);
                assert(self.entries().take(i + 1).drop_last() =~= self.entries().take(i as int));
                assert(self.entries().take(i + 1).last() == (name@, w@));
            }
            i = i + 1;
        }
        proof {
            assert(self.entries().take(n as int) =~= self.entries());
        }
        out
    }

    fn worker_due(&self, agent: &str, link: &LinkKey, tier: Tier, now: u64, interval: u64) -> (r: bool)
        requires
            self.wf(),
        ensures
            r == (self@.contains_key(agent@) && due(self@[agent@], link_id(link@), tier, now, interval)),
    {
        proof {
            self.lemma_view();
        }
        match self.inner.get(&String::from_str(agent)) {
            Some(w) => {
                let id = link.id();
                w.is_due(id.as_str(), tier, now, interval)
            },
            None => false,
        }
    }

    /// Whether a link's always-on probe is due for this agent.
    pub fn always_due(&self, agent: &str, link: &LinkKey, now: u64, interval: u64) -> (r: bool)
        requires
            self.wf(),
        ensures
            r == (self@.contains_key(agent@) && due(self@[agent@], link_id(link@), Tier::Always, now, interval)),
    {
        self.worker_due(agent, link, Tier::Always, now, interval)
    }

    /// Whether a link's throughput probe is due for this agent.
    pub fn throughput_due(&self, agent: &str, link: &LinkKey, now: u64, interval: u64) -> (r: bool)
        requires
            self.wf(),
        ensures
            r == (self@.contains_key(agent@) && due(self@[agent@], link_id(link@), Tier::Throughput, now, interval)),
    {
        self.worker_due(agent, link, Tier::Throughput, now, interval)
    }

    /// Record that a probe of a tier was issued at `now`.
    pub fn mark_issued(&mut self, agent: &str, link: &LinkKey, tier: Tier, now: u64)
        requires
            old(self).wf(),
        ensures
            final(self).wf(),
            final(self).owned() == old(self).owned(),
            final(self)@ == (if old(self)@.contains_key(agent@) {
                old(self)@.insert(agent@, WorkerView {
                    last_issue: old(self)@[agent@].last_issue.insert((link_id(link@), tier), now),
                    ..old(self)@[agent@]
                })
            } else {
                old(self)@
            }),
    {
        proof {
            self.lemma_view();
        }
        match self.inner.find(&String::from_str(agent)) {
            Some(i) => {
                let ghost before = *self;
                proof {
                    before.inner.lemma_index_of(i as int);
                }
                let mut w = self.take_at(i);
                let id = link.id();
                w.mark_issued(id.as_str(), tier, now);
                self.put_at(i, w, Ghost(before));
                proof {
                    self.lemma_owned_update(before, i as int);
                }
            },
            None => {},
        }
    }

    proof fn lemma_owned_update(&self, before: WorkerRegistry, i: int)
        requires
            0 <= i < before.entries().len(),
            self.entries().len() == before.entries().len(),
            forall|j: int| 0 <= j < before.entries().len() && j != i ==> self.entries()[j] == before.entries()[j],
            self.entries()[i].0 == before.entries()[i].0,
            self.entries()[i].1.links == before.entries()[i].1.links,
        ensures
            self.owned() == before.owned(),
    {
        lemma_owned_same_links(self.entries(), before.entries());
    }

    /// The last cost the controller asked the agent to apply for a link, if any.
    pub fn applied_sent(&self, agent: &str, link: &LinkKey) -> (r: Option<u32>)
        requires
            self.wf(),
        ensures
            r == (if self@.contains_key(agent@) && self@[agent@].applied_sent.contains_key(link_id(link@)) {
                Some(self@[agent@].applied_sent[link_id(link@)])
            } else {
                None
            }),
    {
        proof {
            self.lemma_view();
        }
        match self.inner.get(&String::from_str(agent)) {
            Some(w) => {
                let id = link.id();
                match w.applied_sent.get(&id) {
                    Some(c) => Some(*c),
                    None => None,
                }
            },
            None => None,
        }
    }

    /// Remember the cost sent to an agent for a link.
    pub fn set_applied_sent(&mut self, agent: &str, link: &LinkKey, cost: u32)
        requires
            old(self).wf(),
        ensures
            final(self).wf(),
            final(self).owned() == old(self).owned(),
            final(self)@ == (if old(self)@.contains_key(agent@) {
                old(self)@.insert(agent@, WorkerView {
                    applied_sent: old(self)@[agent@].applied_sent.insert(link_id(link@), cost),
                    ..old(self)@[agent@]
                })
            } else {
                old(self)@
            }),
    {
        proof {
            self.lemma_view();
        }
        match self.inner.find(&String::from_str(agent)) {
            Some(i) => {
                let ghost before = *self;
                proof {
                    before.inner.lemma_index_of(i as int);
                }
                let mut w = self.take_at(i);
                w.applied_sent.insert(link.id(), cost);
                proof {
                    assert(w@ =~= (WorkerView {
                        applied_sent: before@[agent@].applied_sent.insert(link_id(link@), cost),
                        ..before@[agent@]
                    }));
                }
                self.put_at(i, w, Ghost(before));
                proof {
                    self.lemma_owned_update(before, i as int);
                }
            },
            None => {},
        }
    }

    /// Queue a command for an agent. A command is not enqueued if one with the
    /// same key (link + kind/tier) is already pending — the agent only ever has
    /// one outstanding probe per kind per link, so an unresponsive agent cannot
    /// accumulate an unbounded backlog. Returns true when the command was
    /// actually enqueued (so the caller stamps "issued").
    pub fn push(&mut self, agent: &str, cmd: WorkCmd) -> (r: bool)
        requires
            old(self).wf(),
        ensures
            final(self).wf(),
            final(self).owned() == old(self).owned(),
            r == (old(self)@.contains_key(agent@) && !queue_has_key(old(self)@[agent@].queue, cmd)),
            final(self)@ == (if r {
                old(self)@.insert(agent@, WorkerView { queue: old(self)@[agent@].queue.push(cmd), ..old(self)@[agent@] })
            } else {
                old(self)@
            }),
    {
        proof {
            self.lemma_view();
        }
        match self.inner.find(&String::from_str(agent)) {
            Some(i) => {
                let ghost before = *self;
                proof {
                    before.inner.lemma_index_of(i as int);
                }
                let key = cmd_key_of(&cmd);
                if self.inner.entry(i).1.has_key(&key) {
                    return false;
                }
                let mut w = self.take_at(i);
                w.queue.push(cmd);
                proof {
                    assert(w@ =~= (WorkerView { queue: before@[agent@].queue.push(cmd), ..before@[agent@] }));
                }
                self.put_at(i, w, Ghost(before));
                proof {
                    self.lemma_owned_update(before, i as int);
                }
                true
            },
            None => false,
        }
    }

    /// Drain all pending commands for an agent at time `now`.
    pub fn drain_at(&mut self, agent: &str, now: u64) -> (r: Vec<WorkCmd>)
        requires
            old(self).wf(),
        ensures
            final(self).wf(),
            final(self).owned() == old(self).owned(),
            r@ == (if old(self)@.contains_key(agent@) { old(self)@[agent@].queue } else { Seq::empty() }),
            final(self)@ == drained_at(old(self)@, agent@, now),
    {
        proof {
            self.lemma_view();
        }
        match self.inner.find(&String::from_str(agent)) {
            Some(i) => {
                let ghost before = *self;
                proof {
                    before.inner.lemma_index_of(i as int);
                }
                let mut w = self.take_at(i);
                w.last_seen = now;
                let mut out: Vec<WorkCmd> = Vec::new();
                std::mem::swap(&mut out, &mut w.queue);
                proof {
                    assert(w@ =~= (WorkerView { queue: Seq::empty(), last_seen: now, ..before@[agent@] }));
                }
                self.put_at(i, w, Ghost(before));
                proof {
                    self.lemma_owned_update(before, i as int);
                }
                out
            },
            None => Vec::new(),
        }
    }

    /// Drain all pending commands for an agent (used by the work endpoint).
    pub fn drain(&mut self, agent: &str) -> (r: Vec<WorkCmd>)
        requires
            old(self).wf(),
        ensures
            final(self).wf(),
            final(self).owned() == old(self).owned(),
            r@ == (if old(self)@.contains_key(agent@) { old(self)@[agent@].queue } else { Seq::empty() }),
            exists|now: u64| final(self)@ == #[trigger] drained_at(old(self)@, agent@, now),
    {
        let now = crate::clock::wall_clock_secs();
        self.drain_at(agent, now)
    }

    /// Note that the agent was seen at `now`.
    pub fn touch_at(&mut self, agent: &str, now: u64)
        requires
            old(self).wf(),
        ensures
            final(self).wf(),
            final(self).owned() == old(self).owned(),
            final(self)@ == seen_at(old(self)@, agent@, now),
    {
        proof {
            self.lemma_view();
        }
        match self.inner.find(&String::from_str(agent)) {
            Some(i) => {
                let ghost before = *self;
                proof {
                    before.inner.lemma_index_of(i as int);
                }
                let mut w = self.take_at(i);
                w.last_seen = now;
                proof {
                    assert(w@ =~= (WorkerView { last_seen: now, ..before@[agent@] }));
                }
                self.put_at(i, w, Ghost(before));
                proof {
                    self.lemma_owned_update(before, i as int);
                }
            },
            None => {},
        }
    }

    /// Note that the agent was seen now.
    pub fn touch(&mut self, agent: &str)
        requires
            old(self).wf(),
        ensures
            final(self).wf(),
            final(self).owned() == old(self).owned(),
            exists|now: u64| final(self)@ == #[trigger] seen_at(old(self)@, agent@, now),
    {
        let now = crate::clock::wall_clock_secs();
        self.touch_at(agent, now)
    }

    /// The names of all registered agents.
    pub fn agents(&self) -> (r: Vec<String>)
        requires
            self.wf(),
        ensures
            r@.map_values(|s: String| s@) == self.entries().map_values(|e: (Seq<char>, WorkerView)| e.0),
    {
        proof {
            self.lemma_view();
        }
        let mut out: Vec<String> = Vec::new();
        let n = self.inner.len();
        let mut i: usize = 0;
        while i < n
            invariant
                self.wf(),
                n == self.inner.seq().len(),
                self.entries().len() == n,
                forall|a: int| 0 <= a < n ==> #[trigger] self.entries()[a] == (self.inner.seq()[a].0@, self.inner.seq()[a].1@),
                i <= n,
                out@.len() == i,
                forall|a: int| 0 <= a < i ==> #[trigger] out@[a]@ == self.entries()[a].0,
            decreases n - i,
        {
            out.push(self.inner.entry(i).0.clone());
            i = i + 1;
        }
        proof {
            assert(out@.map_values(|s: String| s@) =~= self.entries().map_values(|e: (Seq<char>, WorkerView)| e.0));
        }
        out
    }
}

/// `owned_of` reads only names and links.
proof fn lemma_owned_same_links(a: Seq<(Seq<char>, WorkerView)>, b: Seq<(Seq<char>, WorkerView)>)
    requires
        a.len() == b.len(),
        forall|j: int| 0 <= j < a.len() ==> (#[trigger] a[j]).0 == b[j].0 && a[j].1.links == b[j].1.links,
    ensures
        owned_of(a) == owned_of(b),
    decreases a.len(),
{
    if a.len() > 0 {
        lemma_owned_same_links(a.drop_last(), b.drop_last());
        assert(a.last().0 == b.last().0);
    }
}

/// Draining hands out every pending command exactly once: a second drain
/// right after the first returns nothing.
pub proof fn law_drain_once(m: RegistryView, agent: Seq<char>, now1: u64)
    requires
        m.contains_key(agent),
    ensures
        ({
            let after = m.insert(agent, WorkerView { queue: Seq::empty(), last_seen: now1, ..m[agent] });
            after[agent].queue == Seq::<WorkCmd>::empty()
        }),
{
}

/// A pushed command never sits next to another with its key: after a push
/// succeeded, pushing a command with the same key is refused.
pub proof fn law_push_dedups(m: RegistryView, agent: Seq<char>, c1: WorkCmd, c2: WorkCmd)
    requires
        m.contains_key(agent),
        !queue_has_key(m[agent].queue, c1),
        cmd_key(c1) == cmd_key(c2),
    ensures
        ({
            let after = m.insert(agent, WorkerView { queue: m[agent].queue.push(c1), ..m[agent] });
            queue_has_key(after[agent].queue, c2)
        }),
{
    let q = m[agent].queue.push(c1);
    assert(cmd_key(q[q.len() - 1]) == cmd_key(c2));
}

/// A probe issued at `now` is not due again before `interval` has elapsed,
/// and is due once it has.
pub proof fn law_due_after_interval(w: WorkerView, id: Seq<char>, tier: Tier, now: u64, later: u64, interval: u64)
    requires
        now <= later,
    ensures
        ({
            let w2 = WorkerView { last_issue: w.last_issue.insert((id, tier), now), ..w };
            &&& (later - now < interval ==> !due(w2, id, tier, later, interval))
            &&& (later - now >= interval ==> due(w2, id, tier, later, interval))
        }),
{
}

/// Body of `POST /v1/agent/register`.
#[derive(Debug)]
pub struct RegisterReq {
    pub agent: String,
    pub links: Vec<LinkKey>,
    /// The agent's loopback address (the prefix a path trace to it resolves).
    pub loopback: Option<String>,
}

/// Answer to a registration: the current policy snapshot for its links.
#[derive(Debug)]
pub struct RegisterResp {
    pub ok: bool,
    pub commands: Vec<WorkCmd>,
}

/// Body of `POST /v1/agent/work`.
#[derive(Debug)]
pub struct WorkReq {
    pub agent: String,
}

/// The drained commands of an agent.
#[derive(Debug)]
pub struct WorkResp {
    pub commands: Vec<WorkCmd>,
}

/// Body of `POST /v1/apply/ack`.
#[derive(Debug)]
pub struct ApplyAckReq {
    pub agent: String,
    pub link: LinkKey,
    pub cost: u32,
}

} // verus!
