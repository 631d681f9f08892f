//! Shared value types: links, quality records, probe state.

use crate::assoc::KeyView;
use vstd::prelude::*;

verus! {

/// The view of a link: (from, to, interface).
pub type LinkKeyView = (Seq<char>, Seq<char>, Seq<char>);

/// `"from/to/interface"`: the compact stable identifier of a link.
pub open spec fn link_id(k: LinkKeyView) -> Seq<char> {
    k.0 + seq!['/'] + k.1 + seq!['/'] + k.2
}

/// Identifies a directed link.
#[derive(Debug, PartialEq, Eq, Hash)]
pub struct LinkKey {
    pub from: String,
    pub to: String,
    pub interface: String,
}

impl View for LinkKey {
    type V = LinkKeyView;

    open spec fn view(&self) -> LinkKeyView {
        (self.from@, self.to@, self.interface@)
    }
}

impl Clone for LinkKey {
    fn clone(&self) -> (r: Self)
        ensures
            r == *self,
    {
        LinkKey { from: self.from.clone(), to: self.to.clone(), interface: self.interface.clone() }
    }
}

impl KeyView for LinkKey {
    fn key_eq(&self, other: &Self) -> (r: bool) {
        self.from == other.from && self.to == other.to && self.interface == other.interface
    }

    fn key_clone(&self) -> (r: Self) {
        self.clone()
    }
}

impl LinkKey {
    pub fn new(from: &str, to: &str, interface: &str) -> (r: LinkKey)
        ensures
            r@ == (from@, to@, interface@),
    {
        LinkKey {
            from: String::from_str(from),
            to: String::from_str(to),
            interface: String::from_str(interface),
        }
    }

    /// Compact stable identifier used as map keys and command ids.
    pub fn id(&self) -> (r: String)
        ensures
            r@ == link_id(self@),
    {
        let mut s = self.from.clone();
        s.append("/");
        s.append(self.to.as_str());
        s.append("/");
        s.append(self.interface.as_str());
        proof {
            reveal_strlit("/");
        }
        s
    }
}

/// Probe state reported by the agent alongside measurements.
#[derive(Debug, Clone, Copy, PartialEq, Eq, Structural)]
pub enum ProbeState {
    Quiet,
    Busy,
    Conflict,
}

impl Default for ProbeState {
    fn default() -> (r: Self)
        ensures
            r == ProbeState::Quiet,
    {
        ProbeState::Quiet
    }
}

/// Wire name of a probe state.
pub open spec fn probe_state_name(s: ProbeState) -> Seq<char> {
    match s {
        ProbeState::Quiet => "quiet"@,
        ProbeState::Busy => "busy"@,
        ProbeState::Conflict => "conflict"@,
    }
}

impl ProbeState {
    pub fn as_str(&self) -> (r: &'static str)
        ensures
            r@ == probe_state_name(*self),
    {
        match self {
            ProbeState::Quiet => "quiet",
            ProbeState::Busy => "busy",
            ProbeState::Conflict => "conflict",
        }
    }
}

/// Quality class assigned by the controller from thresholds, best first.
#[derive(Debug, Clone, Copy, PartialEq, Eq, Structural)]
pub enum Quality {
    Good,
    Acceptable,
    Poor,
    Bad,
}

/// Wire name of a quality class.
pub open spec fn quality_name(q: Quality) -> Seq<char> {
    match q {
        Quality::Good => "good"@,
        Quality::Acceptable => "acceptable"@,
        Quality::Poor => "poor"@,
        Quality::Bad => "bad"@,
    }
}

/// Rank of a quality class: 0 for good up to 3 for bad.
pub open spec fn quality_rank(q: Quality) -> nat {
    match q {
        Quality::Good => 0,
        Quality::Acceptable => 1,
        Quality::Poor => 2,
        Quality::Bad => 3,
    }
}

impl Quality {
    pub fn as_str(&self) -> (r: &'static str)
        ensures
            r@ == quality_name(*self),
    {
        match self {
            Quality::Good => "good",
            Quality::Acceptable => "acceptable",
            Quality::Poor => "poor",
            Quality::Bad => "bad",
        }
    }
}

/// A per-link quality/policy record (LWW by `ts`).
///
/// The measurement dimensions travel in `metrics`, which the library carries
/// without reading; the controller-assigned `quality` and `ospf_cost`, the
/// probe `state` and the timestamp are what the logic decides on.
#[derive(Debug, Clone, Copy)]
pub struct QualityRecord<M> {
    pub ts: u64,
    pub metrics: M,
    pub state: ProbeState,
    pub quality: Option<Quality>,
    pub ospf_cost: Option<u32>,
}

impl<M> QualityRecord<M> {
    /// A fresh, unclassified record stamped with the current wall clock.
    pub fn new(metrics: M, state: ProbeState) -> (r: Self)
        ensures
            r.metrics == metrics,
            r.state == state,
            r.quality is None,
            r.ospf_cost is None,
    {
        QualityRecord {
            ts: crate::clock::wall_clock_secs(),
            metrics,
            state,
            quality: None,
            ospf_cost: None,
        }
    }
}

/// The measurement dimensions a live policy record carries: rtt, loss,
/// request/response rate, TCP and UDP throughput (each optional) and the link
/// utilization at the probe moment. The values are carried, never read.
#[derive(Debug, Clone, Copy)]
pub struct Metrics<D> {
    pub rtt_ms: Option<D>,
    pub loss_pct: Option<D>,
    pub rr_tps: Option<D>,
    pub tcp_mbps: Option<D>,
    pub udp_mbps: Option<D>,
    pub util_mbps: D,
}

/// User-facing quality report (metrics + controller-assigned class/cost).
#[derive(Debug, Clone)]
pub struct QualityView<M> {
    pub link: LinkKey,
    pub record: QualityRecord<M>,
}

} // verus!
