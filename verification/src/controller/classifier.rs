//! Policy classifier — decouples decision-making from measurement.
//!
//! Every probe report is appended to the time-series store (measurement).
//! A periodic pass here re-derives each link's quality class and OSPF cost
//! from a window of recent samples (per-dimension freshness with last-known
//! carry for the sparse throughput dimension), and writes the resulting
//! *policy record* into the LWW KV. Everything downstream reads that derived
//! record, so nothing depends on the lossy latest datapoint.
//!
//! Busy/conflict semantics: a link whose most recent state is `busy` or
//! `conflict` is never re-classified as degraded. It keeps its last derived
//! cost for up to `busy_hold_secs`; beyond that the sample is stale and the
//! hold no longer applies (the underlay owns hard outages).
//!
//! Class-change hysteresis: once a link has an applied class, a different
//! class must be observed on `hysteresis_passes` consecutive passes before it
//! is applied; a link's first classification applies at once.

use crate::assoc::AssocMap;
use crate::controller::config::Classifier;
use crate::controller::kv::{lww_put, KvView, LwwStore};
use crate::controller::model::{LinkKey, LinkKeyView, Metrics, ProbeState, Quality, QualityRecord};
use crate::controller::quality::{best_effort, classify_window, cost_for_quality, cost_of, DimCrossings, QualityCosts};
use crate::controller::tsdb::{collapse, Tsdb, TsdbView, WindowSpec, WindowView};
use vstd::prelude::*;

verus! {

/// Per-link derived policy: the applied class and cost (held while a link is
/// busy), and the class change being observed.
#[derive(Debug, Clone, Copy, PartialEq, Eq, Structural)]
pub struct LastPolicy {
    /// The applied class.
    pub quality: Quality,
    /// The applied OSPF cost.
    pub ospf_cost: u32,
    /// A class other than the applied one seen on the latest passes.
    pub candidate: Quality,
    /// How many consecutive passes saw `candidate` (0: no change pending).
    pub streak: u32,
}

/// One more pass, saturating.
pub open spec fn sat_inc(n: u32) -> u32 {
    if n < u32::MAX {
        (n + 1) as u32
    } else {
        n
    }
}

/// A link's policy with `q` applied and no change pending.
pub open spec fn applied(q: Quality, costs: QualityCosts) -> LastPolicy {
    LastPolicy { quality: q, ospf_cost: cost_of(costs, q), candidate: q, streak: 0 }
}

/// What a pass that observes class `q` makes of a link's policy: the first
/// classification applies at once; the applied class observed again clears a
/// pending change; another class is applied once it has been observed on
/// `passes` consecutive passes, else it is counted and the applied class
/// kept.
pub open spec fn observe(prev: Option<LastPolicy>, q: Quality, costs: QualityCosts, passes: u32) -> LastPolicy {
    match prev {
        None => applied(q, costs),
        Some(p) => if q == p.quality {
            applied(q, costs)
        } else {
            let streak = if p.streak > 0 && p.candidate == q {
                sat_inc(p.streak)
            } else {
                1
            };
            if streak >= passes {
                applied(q, costs)
            } else {
                LastPolicy { quality: p.quality, ospf_cost: p.ospf_cost, candidate: q, streak }
            }
        },
    }
}

/// link -> last derived policy.
pub type LastView = Map<LinkKeyView, LastPolicy>;

/// `now - ts`, saturating at zero.
pub open spec fn since(now: u64, ts: u64) -> int {
    if now >= ts {
        now - ts
    } else {
        0
    }
}

/// The busy/conflict hold applies: the newest sample is busy or conflict and
/// younger than the hold.
pub open spec fn holds<D>(view: WindowView<D>, now: u64, busy_hold_secs: u64) -> bool {
    (view.state == ProbeState::Busy || view.state == ProbeState::Conflict) && since(now, view.ts) < busy_hold_secs
}

/// The live policy record for a collapsed window and a derived class/cost.
pub open spec fn derived<D>(view: WindowView<D>, quality: Option<Quality>, ospf_cost: Option<u32>) -> QualityRecord<Metrics<D>> {
    QualityRecord {
        ts: view.ts,
        metrics: Metrics {
            rtt_ms: view.rtt_ms,
            loss_pct: view.loss_pct,
            rr_tps: view.rr_tps,
            tcp_mbps: view.tcp_mbps,
            udp_mbps: None,
            util_mbps: view.util_mbps,
        },
        state: view.state,
        quality,
        ospf_cost,
    }
}

/// One link's classification: under a busy hold the applied class and cost
/// are re-stamped (none if the link was never classified); otherwise the
/// window's class is observed (see `observe`) and the resulting applied
/// class and cost are written.
pub open spec fn classify_step<D>(
    last: LastView,
    kv: KvView<Metrics<D>>,
    link: LinkKeyView,
    view: WindowView<D>,
    c: DimCrossings,
    now: u64,
    cfg: Classifier,
    costs: QualityCosts,
) -> (LastView, KvView<Metrics<D>>) {
    if holds(view, now, cfg.busy_hold_secs) {
        let rec = if last.contains_key(link) {
            derived(view, Some(last[link].quality), Some(last[link].ospf_cost))
        } else {
            derived(view, None, None)
        };
        (last, lww_put(kv, link, rec))
    } else {
        let prev = if last.contains_key(link) { Some(last[link]) } else { None };
        let p = observe(prev, best_effort(c), costs, cfg.hysteresis_passes);
        (last.insert(link, p), lww_put(kv, link, derived(view, Some(p.quality), Some(p.ospf_cost))))
    }
}

/// The window parameters of the classifier configuration.
pub open spec fn window_spec(cfg: Classifier) -> WindowSpec {
    WindowSpec {
        always_fresh_secs: cfg.always_fresh_secs,
        tcp_fresh_secs: cfg.tcp_fresh_secs,
        tcp_carry_secs: cfg.tcp_carry_secs,
    }
}

/// The collapsed window of `link` at `now`, if it has recent data.
pub open spec fn window_of<D>(ts: TsdbView<D>, link: LinkKeyView, cfg: Classifier, now: u64) -> Option<WindowView<D>> {
    if ts.rings.contains_key(link) {
        collapse(ts.rings[link], window_spec(cfg), now)
    } else {
        None
    }
}

/// A pass over `links`, first to last, with the crossings `cs` of their
/// windows; links without recent data are left alone.
pub open spec fn pass<D>(
    st: (LastView, KvView<Metrics<D>>),
    ts: TsdbView<D>,
    links: Seq<LinkKeyView>,
    cs: Seq<DimCrossings>,
    now: u64,
    cfg: Classifier,
    costs: QualityCosts,
) -> (LastView, KvView<Metrics<D>>)
    decreases links.len(),
{
    if links.len() == 0 || cs.len() < links.len() {
        st
    } else {
        let before = pass(st, ts, links.drop_last(), cs.subrange(0, links.len() - 1), now, cfg, costs);
        match window_of(ts, links.last(), cfg, now) {
            Some(view) => classify_step(before.0, before.1, links.last(), view, cs[links.len() - 1], now, cfg, costs),
            None => before,
        }
    }
}

/// Derived-policy memory of the classifier.
pub struct ClassifierState {
    last: AssocMap<LinkKey, LastPolicy>,
}

impl View for ClassifierState {
    type V = LastView;

    closed spec fn view(&self) -> LastView {
        self.last.map()
    }
}

impl ClassifierState {
    pub closed spec fn wf(&self) -> bool {
        self.last.wf()
    }

    pub fn new() -> (r: Self)
        ensures
            r.wf(),
            r@ == Map::<LinkKeyView, LastPolicy>::empty(),
    {
        ClassifierState { last: AssocMap::new() }
    }

    /// The last derived policy of `link`, if it was ever classified.
    pub fn last_policy(&self, link: &LinkKey) -> (r: Option<LastPolicy>)
        requires
            self.wf(),
        ensures
            r == (if self@.contains_key(link@) { Some(self@[link@]) } else { None }),
    {
        match self.last.get(link) {
            Some(p) => Some(*p),
            None => None,
        }
    }

    /// Classify one link from its collapsed window and the crossings of that
    /// window, and stamp the live policy record into the KV.
    pub fn classify_link<D: Copy>(
        &mut self,
        kv: &mut LwwStore<Metrics<D>>,
        link: &LinkKey,
        view: &WindowView<D>,
        c: &DimCrossings,
        now: u64,
        cfg: &Classifier,
        costs: &QualityCosts,
    )
        requires
            old(self).wf(),
            old(kv).wf(),
        ensures
            final(self).wf(),
            final(kv).wf(),
            (final(self)@, final(kv)@) == classify_step(old(self)@, old(kv)@, link@, *view, *c, now, *cfg, *costs),
    {
        let busy = view.state == ProbeState::Busy || view.state == ProbeState::Conflict;
        if busy && now.saturating_sub(view.ts) < cfg.busy_hold_secs {
            let (held_quality, held_cost) = match self.last.get(link) {
                Some(p) => (Some(p.quality), Some(p.ospf_cost)),
                None => (None, None),
            };
            write_derived(kv, link, view, held_quality, held_cost);
            return;
        }
        let q = classify_window(c);
        let fresh = LastPolicy { quality: q, ospf_cost: cost_for_quality(costs, q), candidate: q, streak: 0 };
        let p = match self.last.get(link) {
            None => fresh,
            Some(prev) => {
                if q == prev.quality {
                    fresh
                } else {
                    let streak = if prev.streak > 0 && prev.candidate == q {
                        if prev.streak < u32::MAX {
                            prev.streak + 1
                        } else {
                            prev.streak
                        }
                    } else {
                        1
                    };
                    if streak >= cfg.hysteresis_passes {
                        fresh
                    } else {
                        LastPolicy { quality: prev.quality, ospf_cost: prev.ospf_cost, candidate: q, streak }
                    }
                }
            },
        };
        self.last.insert(link.clone(), p);
        write_derived(kv, link, view, Some(p.quality), Some(p.ospf_cost));
    }

    /// One classification pass over all links with recent samples. The
    /// crossings of each window against the configured class thresholds come
    /// from `crossings`.
    pub fn classify_once<D: Copy, F: Fn(WindowView<D>) -> DimCrossings>(
        &mut self,
        tsdb: &Tsdb<D>,
        kv: &mut LwwStore<Metrics<D>>,
        cfg: &Classifier,
        costs: &QualityCosts,
        now: u64,
        crossings: F,
    )
        requires
            old(self).wf(),
            old(kv).wf(),
            tsdb.wf(),
            forall|v: WindowView<D>| crossings.requires((v,)),
        ensures
            final(self).wf(),
            final(kv).wf(),
            exists|links: Seq<LinkKeyView>, cs: Seq<DimCrossings>|
                #![trigger pass((old(self)@, old(kv)@), tsdb@, links, cs, now, *cfg, *costs)]
                {
                    &&& links.len() == cs.len()
                    &&& links.no_duplicates()
                    &&& links.to_set() == tsdb@.rings.dom()
                    &&& forall|i: int| 0 <= i < links.len() && window_of(tsdb@, #[trigger] links[i], *cfg, now) is Some
                        ==> crossings.ensures((window_of(tsdb@, links[i], *cfg, now).unwrap(),), cs[i])
                    &&& (final(self)@, final(kv)@) == pass((old(self)@, old(kv)@), tsdb@, links, cs, now, *cfg, *costs)
                },
    {
        let spec = WindowSpec {
            always_fresh_secs: cfg.always_fresh_secs,
            tcp_fresh_secs: cfg.tcp_fresh_secs,
            tcp_carry_secs: cfg.tcp_carry_secs,
        };
        let links = tsdb.links();
        let ghost lv = links@.map_values(|k: LinkKey| k@);
        let ghost mut cs: Seq<DimCrossings> = Seq::empty();
        let ghost st0 = (self@, kv@);
        let mut i: usize = 0;
        while i < links.len()
            invariant
                self.wf(),
                kv.wf(),
                tsdb.wf(),
                forall|v: WindowView<D>| crossings.requires((v,)),
                spec == window_spec(*cfg),
                lv == links@.map_values(|k: LinkKey| k@),
                i <= links@.len(),
                cs.len() == i,
                forall|j: int| 0 <= j < i && window_of(tsdb@, #[trigger] lv[j], *cfg, now) is Some
                    ==> crossings.ensures((window_of(tsdb@, lv[j], *cfg, now).unwrap(),), cs[j]),
                (self@, kv@) == pass(st0, tsdb@, lv.take(i as int), cs, now, *cfg, *costs),
            decreases links@.len() - i,
        {
            let link = &links[i];
            let w = tsdb.window(link, &spec, now);
            proof {
                assert(lv.take(i + 1).drop_last() =~= lv.take(i as int));
                assert(lv.take(i + 1).last() == link@);
            }
            match w {
                Some(view) => {
                    let c = crossings(view);
                    proof {
                        assert(cs.push(c).subrange(0, i as int) =~= cs);
                        cs = cs.push(c);
                    }
                    self.classify_link(kv, link, &view, &c, now, cfg, costs);
                },
                None => {
                    let ghost filler = DimCrossings { rtt_ms: None, loss_pct: None, jitter_ms: None, tcp_mbps: None };
                    proof {
                        assert(cs.push(filler).subrange(0, i as int) =~= cs);
                        cs = cs.push(filler);
                    }
                },
            }
            i = i + 1;
        }
        proof {
            assert(lv.take(links@.len() as int) =~= lv);
            assert(lv.no_duplicates());
            assert(lv.to_set() =~= tsdb@.rings.dom()) by {
                assert forall|k: LinkKeyView| lv.to_set().contains(k) implies tsdb@.rings.dom().contains(k) by {
                    let j = choose|j: int| 0 <= j < lv.len() && lv[j] == k;
                    assert(tsdb@.rings.contains_key(links@[j]@));
                }
                assert forall|k: LinkKeyView| tsdb@.rings.dom().contains(k) implies lv.to_set().contains(k) by {
                    assert(tsdb@.rings.contains_key(k));
                    let j = choose|j: int| 0 <= j < links@.len() && #[trigger] links@[j]@ == k;
                    assert(lv[j] == k);
                }
            }
            assert((self@, kv@) == pass(st0, tsdb@, lv, cs, now, *cfg, *costs));
        }
    }
}

/// Stamp the collapsed window plus the derived quality/cost into the KV as
/// the link's live policy record.
fn write_derived<D: Copy>(
    kv: &mut LwwStore<Metrics<D>>,
    link: &LinkKey,
    view: &WindowView<D>,
    quality: Option<Quality>,
    ospf_cost: Option<u32>,
)
    requires
        old(kv).wf(),
    ensures
        final(kv).wf(),
        final(kv)@ == lww_put(old(kv)@, link@, derived(*view, quality, ospf_cost)),
{
    let rec = QualityRecord {
        ts: view.ts,
        metrics: Metrics {
            rtt_ms: view.rtt_ms,
            loss_pct: view.loss_pct,
            rr_tps: view.rr_tps,
            tcp_mbps: view.tcp_mbps,
            udp_mbps: None,
            util_mbps: view.util_mbps,
        },
        state: view.state,
        quality,
        ospf_cost,
    };
    kv.put(link.clone(), rec);
}

impl Default for ClassifierState {
    fn default() -> (r: Self)
        ensures
            r.wf(),
            r@ == Map::<LinkKeyView, LastPolicy>::empty(),
    {
        ClassifierState::new()
    }
}

/// A busy or conflicting link within the hold is never re-classified: its
/// remembered policy is untouched, and the record it gets carries the last
/// derived class and cost (none if it was never classified) — never a class
/// derived from the busy sample.
pub proof fn law_busy_link_holds_last_policy<D>(
    last: LastView,
    kv: KvView<Metrics<D>>,
    link: LinkKeyView,
    view: WindowView<D>,
    c: DimCrossings,
    now: u64,
    cfg: Classifier,
    costs: QualityCosts,
)
    requires
        holds(view, now, cfg.busy_hold_secs),
    ensures
        classify_step(last, kv, link, view, c, now, cfg, costs).0 == last,
        classify_step(last, kv, link, view, c, now, cfg, costs).1 == lww_put(kv, link, derived(
            view,
            if last.contains_key(link) { Some(last[link].quality) } else { None },
            if last.contains_key(link) { Some(last[link].ospf_cost) } else { None },
        )),
{
}

/// Outside the hold a link's window class is observed, and the applied class
/// and cost that result are both remembered and written.
pub proof fn law_fresh_link_is_classified<D>(
    last: LastView,
    kv: KvView<Metrics<D>>,
    link: LinkKeyView,
    view: WindowView<D>,
    c: DimCrossings,
    now: u64,
    cfg: Classifier,
    costs: QualityCosts,
)
    requires
        !holds(view, now, cfg.busy_hold_secs),
    ensures
        ({
            let p = observe(if last.contains_key(link) { Some(last[link]) } else { None }, best_effort(c), costs, cfg.hysteresis_passes);
            &&& classify_step(last, kv, link, view, c, now, cfg, costs).0 == last.insert(link, p)
            &&& classify_step(last, kv, link, view, c, now, cfg, costs).1 == lww_put(kv, link, derived(view, Some(p.quality), Some(p.ospf_cost)))
        }),
        !last.contains_key(link) ==> classify_step(last, kv, link, view, c, now, cfg, costs).1 == lww_put(
            kv,
            link,
            derived(view, Some(best_effort(c)), Some(cost_of(costs, best_effort(c)))),
        ),
{
}

/// `n` consecutive passes that all observe class `q`.
pub open spec fn observe_n(p: LastPolicy, q: Quality, costs: QualityCosts, passes: u32, n: nat) -> LastPolicy
    decreases n,
{
    if n == 0 {
        p
    } else {
        observe(Some(observe_n(p, q, costs, passes, (n - 1) as nat)), q, costs, passes)
    }
}

/// Class-change hysteresis: from an applied class other than `q` with no
/// change towards `q` pending, `q` is kept pending (the applied class and
/// cost unchanged) on each of the first `passes - 1` consecutive passes that
/// observe it, and applied, with its cost, on the `passes`-th.
pub proof fn law_class_change_needs_passes(p: LastPolicy, q: Quality, costs: QualityCosts, passes: u32, n: nat)
    requires
        p.quality != q,
        p.streak == 0 || p.candidate != q,
        1 <= n <= passes,
    ensures
        n < passes ==> observe_n(p, q, costs, passes, n) == (LastPolicy {
            quality: p.quality,
            ospf_cost: p.ospf_cost,
            candidate: q,
            streak: n as u32,
        }),
        n == passes ==> observe_n(p, q, costs, passes, n) == applied(q, costs),
    decreases n,
{
    let prev = observe_n(p, q, costs, passes, (n - 1) as nat);
    assert(observe_n(p, q, costs, passes, n) == observe(Some(prev), q, costs, passes));
    if n > 1 {
        law_class_change_needs_passes(p, q, costs, passes, (n - 1) as nat);
        assert(prev.streak == (n - 1) as u32);
        assert(sat_inc(prev.streak) == n as u32);
    } else {
        assert(prev == p);
    }
}

/// A link without data within the carry horizon is left alone by a pass.
pub proof fn law_stale_link_untouched<D>(
    st: (LastView, KvView<Metrics<D>>),
    ts: TsdbView<D>,
    links: Seq<LinkKeyView>,
    cs: Seq<DimCrossings>,
    now: u64,
    cfg: Classifier,
    costs: QualityCosts,
)
    requires
        links.len() > 0,
        cs.len() == links.len(),
        window_of(ts, links.last(), cfg, now) is None,
    ensures
        pass(st, ts, links, cs, now, cfg, costs) == pass(st, ts, links.drop_last(), cs.subrange(0, links.len() - 1), now, cfg, costs),
{
}

} // verus!
