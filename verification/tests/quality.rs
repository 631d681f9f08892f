use mielofon::controller::model::{ProbeState, Quality};
use mielofon::controller::quality::{classify, classify_window, cost_for_quality, score, worst, DimCrossings, QualityCosts};

/// Thresholds of one class: rtt/loss/jitter upper bounds, tcp lower bound.
#[derive(Clone, Copy, Default)]
struct Class {
    rtt: Option<f64>,
    loss: Option<f64>,
    jitter: Option<f64>,
    tcp: Option<f64>,
}

fn class(rtt: f64, loss: f64, jitter: f64, tcp: f64) -> Class {
    Class { rtt: Some(rtt), loss: Some(loss), jitter: Some(jitter), tcp: Some(tcp) }
}

/// The conservative default classes (good, acceptable, poor, bad).
fn defaults() -> [Class; 4] {
    [class(40.0, 1.0, 5.0, 10.0), class(90.0, 2.5, 15.0, 5.0), class(250.0, 5.0, 40.0, 2.0), class(500.0, 10.0, 100.0, 1.0)]
}

fn upper(m: Option<f64>, t: [Option<f64>; 4]) -> Option<[bool; 4]> {
    m.map(|v| [0, 1, 2, 3].map(|i| t[i].is_some_and(|x| v > x)))
}

fn lower(m: Option<f64>, t: [Option<f64>; 4]) -> Option<[bool; 4]> {
    m.map(|v| [0, 1, 2, 3].map(|i| t[i].is_some_and(|x| v < x)))
}

fn crossings(c: &[Class; 4], rtt: Option<f64>, loss: Option<f64>, jitter: Option<f64>, tcp: Option<f64>) -> DimCrossings {
    DimCrossings {
        rtt_ms: upper(rtt, [c[0].rtt, c[1].rtt, c[2].rtt, c[3].rtt]),
        loss_pct: upper(loss, [c[0].loss, c[1].loss, c[2].loss, c[3].loss]),
        jitter_ms: upper(jitter, [c[0].jitter, c[1].jitter, c[2].jitter, c[3].jitter]),
        tcp_mbps: lower(tcp, [c[0].tcp, c[1].tcp, c[2].tcp, c[3].tcp]),
    }
}

fn rec(rtt: Option<f64>, loss: Option<f64>, jitter: Option<f64>, tcp: Option<f64>) -> DimCrossings {
    crossings(&defaults(), rtt, loss, jitter, tcp)
}

#[test]
fn good_link_classifies_good() {
    assert_eq!(classify(ProbeState::Quiet, &rec(Some(15.0), Some(0.0), Some(2.0), Some(80.0))), Some(Quality::Good));
}

#[test]
fn low_rtt_but_throttled_still_penalised() {
    // Low RTT + low jitter but only 1.5 Mbps through (the key failure
    // mode): tcp crosses good/acceptable/poor thresholds → Bad.
    assert_eq!(classify(ProbeState::Quiet, &rec(Some(15.0), Some(0.0), Some(2.0), Some(1.5))), Some(Quality::Bad));
}

#[test]
fn busy_link_not_classified() {
    let r = rec(Some(1000.0), Some(99.0), Some(500.0), Some(0.1));
    assert_eq!(classify(ProbeState::Busy, &r), None);
}

#[test]
fn worse_rtt_escalates_class() {
    assert_eq!(classify(ProbeState::Quiet, &rec(Some(60.0), Some(0.0), Some(2.0), Some(80.0))), Some(Quality::Acceptable));
    assert_eq!(classify(ProbeState::Quiet, &rec(Some(120.0), Some(0.0), Some(2.0), Some(80.0))), Some(Quality::Poor));
    assert_eq!(classify(ProbeState::Quiet, &rec(Some(400.0), Some(0.0), Some(2.0), Some(80.0))), Some(Quality::Bad));
}

#[test]
fn unset_dimension_does_not_penalise() {
    // Only rtt pinned (good=123, bad=321) — everything else unset, so
    // loss/jitter/tcp never escalate.
    let cfg = [
        Class { rtt: Some(123.0), ..Default::default() },
        Class::default(),
        Class::default(),
        Class { rtt: Some(321.0), ..Default::default() },
    ];
    // Terrible loss/jitter/tcp but in-norm rtt → still acceptable.
    assert_eq!(
        classify(ProbeState::Quiet, &crossings(&cfg, Some(200.0), Some(99.0), Some(500.0), Some(0.1))),
        Some(Quality::Acceptable)
    );
    // rtt over the bad line wins.
    assert_eq!(classify(ProbeState::Quiet, &crossings(&cfg, Some(400.0), Some(0.0), Some(2.0), Some(80.0))), Some(Quality::Bad));
    // below good line stays good despite awful tcp.
    assert_eq!(classify(ProbeState::Quiet, &crossings(&cfg, Some(100.0), Some(0.0), Some(2.0), Some(0.1))), Some(Quality::Good));
}

#[test]
fn low_jitter_does_not_punish_medium_rtt() {
    assert_eq!(classify(ProbeState::Quiet, &rec(Some(50.0), Some(0.0), Some(2.0), Some(80.0))), Some(Quality::Acceptable));
    assert_eq!(classify(ProbeState::Quiet, &rec(Some(125.0), Some(0.0), Some(4.0), Some(80.0))), Some(Quality::Poor));
}

#[test]
fn high_jitter_escalates_class() {
    assert_eq!(classify(ProbeState::Quiet, &rec(Some(50.0), Some(0.0), Some(60.0), Some(80.0))), Some(Quality::Bad));
    assert_eq!(classify(ProbeState::Quiet, &rec(Some(50.0), Some(0.0), Some(8.0), Some(80.0))), Some(Quality::Acceptable));
}

#[test]
fn cost_is_conservative() {
    let cfg = QualityCosts::default();
    assert_eq!(cost_for_quality(&cfg, Quality::Good), 10);
    assert_eq!(cost_for_quality(&cfg, Quality::Bad), 100);
}

#[test]
fn window_classify_uses_carried_throughput() {
    assert_eq!(classify_window(&rec(Some(15.0), Some(0.0), Some(2.0), Some(1.5))), Quality::Bad);
    assert_eq!(classify_window(&rec(Some(15.0), Some(0.0), Some(2.0), Some(80.0))), Quality::Good);
}

#[test]
fn window_classify_unset_dims_do_not_constrain() {
    assert_eq!(classify_window(&rec(Some(400.0), None, None, None)), Quality::Bad);
    assert_eq!(classify_window(&rec(Some(15.0), None, None, None)), Quality::Good);
}

#[test]
fn escalation_is_capped_at_bad() {
    assert_eq!(score([true, true, true, true]), 3);
    assert_eq!(score([false, false, true, false]), 3);
    assert_eq!(score([false, true, false, false]), 2);
    assert_eq!(score([true, false, false, false]), 1);
    assert_eq!(score([false, false, false, false]), 0);
    assert_eq!(worst([0, 2, 1, 0]), Quality::Poor);
    assert_eq!(worst([0, 0, 0, 0]), Quality::Good);
    assert_eq!(worst([3, 0, 0, 9]), Quality::Bad);
}

#[test]
fn costs_per_class() {
    let cfg = QualityCosts { good: 1, acceptable: 2, poor: 3, bad: 4 };
    assert_eq!(cost_for_quality(&cfg, Quality::Acceptable), 2);
    assert_eq!(cost_for_quality(&cfg, Quality::Poor), 3);
}
