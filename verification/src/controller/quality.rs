//! Quality classification and per-link OSPF cost derivation.
//!
//! Quality classes are configurable per dimension: each class (good /
//! acceptable / poor / bad) carries optional thresholds and its own OSPF
//! cost. "Worst crossed class wins": for every dimension the metric is
//! checked against each class that pins it, and the resulting overall class
//! is the worst of the per-dimension escalations. Unset dimensions never
//! constrain.
//!
//! The comparison of a measurement against a class threshold happens where
//! the measurement lives; what reaches this module is, per dimension, which
//! classes' thresholds the measurement crossed (`None`: the dimension was not
//! measured). Everything from there on is decided here.
//!
//! The controller never writes a "dead/broken" state/cost — hard outages are
//! owned by the underlay's dead-interval.

use crate::controller::model::{quality_rank, ProbeState, Quality};
use vstd::prelude::*;

verus! {

/// The OSPF cost configured for each class.
#[derive(Debug, Clone, Copy)]
pub struct QualityCosts {
    pub good: u32,
    pub acceptable: u32,
    pub poor: u32,
    pub bad: u32,
}

impl Default for QualityCosts {
    /// Conservative defaults: increasing costs from good to bad.
    fn default() -> (r: Self)
        ensures
            r.good == 10,
            r.acceptable == 20,
            r.poor == 50,
            r.bad == 100,
    {
        QualityCosts { good: 10, acceptable: 20, poor: 50, bad: 100 }
    }
}

pub open spec fn cost_of(cfg: QualityCosts, q: Quality) -> u32 {
    match q {
        Quality::Good => cfg.good,
        Quality::Acceptable => cfg.acceptable,
        Quality::Poor => cfg.poor,
        Quality::Bad => cfg.bad,
    }
}

/// OSPF cost for `q`, taken from the configured class.
pub fn cost_for_quality(cfg: &QualityCosts, q: Quality) -> (r: u32)
    ensures
        r == cost_of(*cfg, q),
{
    match q {
        Quality::Good => cfg.good,
        Quality::Acceptable => cfg.acceptable,
        Quality::Poor => cfg.poor,
        Quality::Bad => cfg.bad,
    }
}

/// Per dimension, for each class in order good, acceptable, poor, bad:
/// whether the class pins a threshold and the measurement crosses it
/// (above an upper bound, below a lower bound). `None` when the dimension
/// was not measured.
#[derive(Debug, Clone, Copy)]
pub struct DimCrossings {
    pub rtt_ms: Option<[bool; 4]>,
    pub loss_pct: Option<[bool; 4]>,
    pub jitter_ms: Option<[bool; 4]>,
    pub tcp_mbps: Option<[bool; 4]>,
}

/// Escalation of one dimension: one past the worst crossed class, capped at
/// bad (3); 0 when nothing is crossed.
pub open spec fn score_of(crossed: Seq<bool>) -> nat {
    if crossed[3] || crossed[2] {
        3
    } else if crossed[1] {
        2
    } else if crossed[0] {
        1
    } else {
        0
    }
}

pub open spec fn dim_score(c: Option<[bool; 4]>) -> nat {
    match c {
        Some(x) => score_of(x@),
        None => 0,
    }
}

pub open spec fn max_nat(a: nat, b: nat) -> nat {
    if a >= b {
        a
    } else {
        b
    }
}

/// The class of a rank (3 and above: bad).
pub open spec fn quality_of_rank(r: nat) -> Quality {
    if r == 0 {
        Quality::Good
    } else if r == 1 {
        Quality::Acceptable
    } else if r == 2 {
        Quality::Poor
    } else {
        Quality::Bad
    }
}

/// The worst escalation over all dimensions.
pub open spec fn overall_rank(c: DimCrossings) -> nat {
    max_nat(max_nat(dim_score(c.rtt_ms), dim_score(c.loss_pct)), max_nat(dim_score(c.jitter_ms), dim_score(c.tcp_mbps)))
}

/// Worst crossed class wins.
pub open spec fn best_effort(c: DimCrossings) -> Quality {
    quality_of_rank(overall_rank(c))
}

/// Escalate the score while the metric crosses a class threshold, in class
/// order good → acceptable → poor → bad. Escalation is capped at 3 (bad),
/// and a class that pins no threshold contributes nothing.
pub fn score(crossed: [bool; 4]) -> (r: u8)
    ensures
        r as nat == score_of(crossed@),
{
    let mut score: u8 = 0;
    let mut i: usize = 0;
    while i < 4
        invariant
            i <= 4,
            score as nat == (if i >= 4 && crossed@[3] { 4nat } else if i >= 3 && crossed@[2] { 3 } else if i >= 2 && crossed@[1] { 2 } else if i >= 1 && crossed@[0] { 1 } else { 0 }),
        decreases 4 - i,
    {
        if crossed[i] && score < (i as u8) + 1 {
            score = (i as u8) + 1;
        }
        i = i + 1;
    }
    if score > 3 {
        3
    } else {
        score
    }
}

fn dim_score_of(c: Option<[bool; 4]>) -> (r: u8)
    ensures
        r as nat == dim_score(c),
{
    match c {
        Some(x) => score(x),
        None => 0,
    }
}

/// The class of the worst of four escalations.
pub fn worst(scores: [u8; 4]) -> (r: Quality)
    ensures
        r == quality_of_rank(max_nat(max_nat(scores@[0] as nat, scores@[1] as nat), max_nat(scores@[2] as nat, scores@[3] as nat))),
{
    let mut m: u8 = 0;
    let mut i: usize = 0;
    while i < 4
        invariant
            i <= 4,
            m as nat == (if i == 0 { 0 } else if i == 1 { scores@[0] as nat } else if i == 2 { max_nat(scores@[0] as nat, scores@[1] as nat) }
                else if i == 3 { max_nat(max_nat(scores@[0] as nat, scores@[1] as nat), scores@[2] as nat) }
                else { max_nat(max_nat(max_nat(scores@[0] as nat, scores@[1] as nat), scores@[2] as nat), scores@[3] as nat) }),
        decreases 4 - i,
    {
        if scores[i] > m {
            m = scores[i];
        }
        i = i + 1;
    }
    match m {
        0 => Quality::Good,
        1 => Quality::Acceptable,
        2 => Quality::Poor,
        _ => Quality::Bad,
    }
}

/// Classify from the crossings, ignoring the probe state.
pub fn classify_best_effort(c: &DimCrossings) -> (r: Quality)
    ensures
        r == best_effort(*c),
{
    worst([
        dim_score_of(c.rtt_ms),
        dim_score_of(c.loss_pct),
        dim_score_of(c.jitter_ms),
        dim_score_of(c.tcp_mbps),
    ])
}

/// Classify a measurement, honouring a busy/conflict probe state (a busy link
/// must never be reported degraded — skip classification).
pub fn classify(state: ProbeState, c: &DimCrossings) -> (r: Option<Quality>)
    ensures
        r == (if state == ProbeState::Busy { None } else { Some(best_effort(*c)) }),
{
    if state == ProbeState::Busy {
        return None;
    }
    Some(classify_best_effort(c))
}

/// Classify a measurement collapsed from a time-series window. Dimensions
/// that fell outside their freshness/carry horizon are unmeasured and do not
/// constrain; a carried throughput still participates.
pub fn classify_window(c: &DimCrossings) -> (r: Quality)
    ensures
        r == best_effort(*c),
{
    classify_best_effort(c)
}

/// The overall class is exactly the worst per-dimension escalation: every
/// dimension's escalation is at most the overall rank, and some dimension
/// reaches it.
pub proof fn law_worst_crossed_class_wins(c: DimCrossings)
    ensures
        quality_rank(best_effort(c)) >= dim_score(c.rtt_ms),
        quality_rank(best_effort(c)) >= dim_score(c.loss_pct),
        quality_rank(best_effort(c)) >= dim_score(c.jitter_ms),
        quality_rank(best_effort(c)) >= dim_score(c.tcp_mbps),
        quality_rank(best_effort(c)) == dim_score(c.rtt_ms) || quality_rank(best_effort(c)) == dim_score(c.loss_pct)
            || quality_rank(best_effort(c)) == dim_score(c.jitter_ms) || quality_rank(best_effort(c)) == dim_score(c.tcp_mbps),
{
}

/// A low-RTT link that is throughput-throttled is still penalised: a
/// throughput below the good class's bound makes the link at best acceptable,
/// whatever the other dimensions say.
pub proof fn law_throttled_link_penalised(c: DimCrossings)
    requires
        c.tcp_mbps matches Some(t) && t@[0],
    ensures
        best_effort(c) != Quality::Good,
{
}

/// An unmeasured (or uncrossed) dimension never makes the class worse:
/// dropping it can only improve or keep the class.
pub proof fn law_unset_dimension_never_penalises(c: DimCrossings)
    ensures
        quality_rank(best_effort(DimCrossings { rtt_ms: None, ..c })) <= quality_rank(best_effort(c)),
        quality_rank(best_effort(DimCrossings { loss_pct: None, ..c })) <= quality_rank(best_effort(c)),
        quality_rank(best_effort(DimCrossings { jitter_ms: None, ..c })) <= quality_rank(best_effort(c)),
        quality_rank(best_effort(DimCrossings { tcp_mbps: None, ..c })) <= quality_rank(best_effort(c)),
        best_effort(DimCrossings { rtt_ms: None, loss_pct: None, jitter_ms: None, tcp_mbps: None }) == Quality::Good,
{
}

/// Crossing more thresholds never improves the class.
pub proof fn law_more_crossings_never_better(c: DimCrossings, d: DimCrossings)
    requires
        dim_score(c.rtt_ms) <= dim_score(d.rtt_ms),
        dim_score(c.loss_pct) <= dim_score(d.loss_pct),
        dim_score(c.jitter_ms) <= dim_score(d.jitter_ms),
        dim_score(c.tcp_mbps) <= dim_score(d.tcp_mbps),
    ensures
        quality_rank(best_effort(c)) <= quality_rank(best_effort(d)),
{
}

/// With costs that grow from good to bad (as the defaults do), a worse class
/// never gets a lower cost.
pub proof fn law_cost_follows_class(cfg: QualityCosts, q1: Quality, q2: Quality)
    requires
        cfg.good <= cfg.acceptable <= cfg.poor <= cfg.bad,
        quality_rank(q1) <= quality_rank(q2),
    ensures
        cost_of(cfg, q1) <= cost_of(cfg, q2),
{
}

} // verus!
