use mielofon::controller::classifier::ClassifierState;
use mielofon::controller::config::{Classifier, TsConfig};
use mielofon::controller::kv::LwwStore;
use mielofon::controller::model::{LinkKey, Metrics, ProbeState, Quality};
use mielofon::controller::quality::{DimCrossings, QualityCosts};
use mielofon::controller::tsdb::{now_secs, RawSample, Tsdb, WindowView};

fn cfg(fresh: u64, carry: u64) -> Classifier {
    Classifier {
        interval_secs: 5,
        always_fresh_secs: 60,
        tcp_fresh_secs: fresh,
        tcp_carry_secs: carry,
        busy_hold_secs: 120,
        hysteresis_passes: 3,
    }
}

/// Crossings of a window against the default classes
/// (rtt 40/90/250/500, loss 1/2.5/5/10, jitter 5/15/40/100, tcp ≥10/5/2/1).
fn crossings(v: WindowView<f64>) -> DimCrossings {
    let up = |m: Option<f64>, t: [f64; 4]| m.map(|x| t.map(|b| x > b));
    let down = |m: Option<f64>, t: [f64; 4]| m.map(|x| t.map(|b| x < b));
    DimCrossings {
        rtt_ms: up(v.rtt_ms, [40.0, 90.0, 250.0, 500.0]),
        loss_pct: up(v.loss_pct, [1.0, 2.5, 5.0, 10.0]),
        jitter_ms: up(v.jitter_ms, [5.0, 15.0, 40.0, 100.0]),
        tcp_mbps: down(v.tcp_mbps, [10.0, 5.0, 2.0, 1.0]),
    }
}

struct World {
    tsdb: Tsdb<f64>,
    kv: LwwStore<Metrics<f64>>,
    cls: ClassifierState,
    cfg: Classifier,
}

impl World {
    fn new(fresh: u64, carry: u64) -> World {
        World { tsdb: Tsdb::new(&TsConfig::default()), kv: LwwStore::new(), cls: ClassifierState::new(), cfg: cfg(fresh, carry) }
    }

    fn classify_once(&mut self, now: u64) {
        self.cls.classify_once(&self.tsdb, &mut self.kv, &self.cfg, &QualityCosts::default(), now, crossings);
    }
}

fn link() -> LinkKey {
    LinkKey::new("spoke-1", "hub-a", "awg_hub_a")
}

fn append_always(w: &mut World, ts: u64, rtt: f64) {
    w.tsdb.append(&link(), RawSample::from_dims(ProbeState::Quiet, ts, Some(rtt), Some(0.0), Some(90.0), None, 0.0));
}

fn append_busy(w: &mut World, ts: u64) {
    w.tsdb.append(&link(), RawSample::from_dims(ProbeState::Busy, ts, None, None, None, None, 30.0));
}

#[test]
fn derives_policy_from_window_and_writes_kv() {
    let mut w = World::new(1200, 3600);
    let base = now_secs();
    // Old throughput sample (throttled) + fresh always probes.
    w.tsdb.append(&link(), RawSample::from_dims(ProbeState::Quiet, base - 300, None, None, None, Some(1.5), 0.0));
    append_always(&mut w, base, 15.0);

    w.classify_once(base);
    let rec = w.kv.get(&link()).expect("derived record");
    // The carried tcp (1.5 Mbps) makes it Bad, and that is written out.
    assert_eq!(rec.quality, Some(Quality::Bad));
    assert_eq!(rec.ospf_cost, Some(100));
    // The live record carries the collapsed measurement dims, not just cost.
    assert_eq!(rec.metrics.tcp_mbps, Some(1.5));
    assert_eq!(rec.metrics.rtt_ms, Some(15.0));
}

#[test]
fn busy_link_holds_last_cost() {
    let mut w = World::new(1200, 3600);
    let base = now_secs();
    // First a good healthy link -> Good cost.
    w.tsdb.append(&link(), RawSample::from_dims(ProbeState::Quiet, base, Some(10.0), Some(0.0), Some(100.0), Some(90.0), 0.0));
    w.classify_once(base);
    assert_eq!(w.kv.get(&link()).unwrap().quality, Some(Quality::Good));

    // Then a busy sample arrives: cost must NOT escalate, it stays good.
    append_busy(&mut w, base + 30);
    w.classify_once(base);
    assert_eq!(w.kv.get(&link()).unwrap().quality, Some(Quality::Good), "busy must hold the last (good) cost");
    assert_eq!(w.kv.get(&link()).unwrap().ospf_cost, Some(10));
}

#[test]
fn no_recent_data_means_no_derived_record() {
    let mut w = World::new(1200, 3600);
    let now = now_secs();
    // Beyond the carry horizon: the window is empty, KV stays empty.
    let old_ts = now - 7200;
    w.tsdb.append(&link(), RawSample::from_dims(ProbeState::Quiet, old_ts, Some(10.0), Some(0.0), Some(100.0), Some(90.0), 0.0));
    w.classify_once(now);
    assert!(w.kv.get(&link()).is_none());
}

#[test]
fn busy_from_start_link_stays_on_map_unclassified() {
    let mut w = World::new(1200, 3600);
    let base = now_secs();
    // A link that was busy on its very first report: no held cost exists.
    append_busy(&mut w, base);
    w.classify_once(base);
    let rec = w.kv.get(&link()).expect("busy link present on map");
    assert_eq!(rec.state, ProbeState::Busy);
    assert_eq!(rec.quality, None, "never classified while busy");
    assert_eq!(rec.ospf_cost, None);
}

#[test]
fn busy_hold_expires() {
    let mut w = World::new(1200, 3600);
    let base = 1_700_000_000;
    append_always(&mut w, base, 15.0);
    w.classify_once(base);
    assert_eq!(w.cls.last_policy(&link()).unwrap().quality, Quality::Good);
    append_busy(&mut w, base + 10);
    // 200 s after the busy sample the hold (120 s) is over: the link is
    // classified from its window again (nothing fresh within 60 s → good).
    w.classify_once(base + 210);
    let rec = w.kv.get(&link()).unwrap();
    assert_eq!(rec.state, ProbeState::Busy);
    assert_eq!(rec.quality, Some(Quality::Good));
}

#[test]
fn class_change_waits_for_hysteresis_passes() {
    let mut w = World::new(1200, 3600);
    let base = 1_700_000_000;
    // First classification applies at once.
    append_always(&mut w, base, 15.0);
    w.classify_once(base);
    assert_eq!(w.kv.get(&link()).unwrap().quality, Some(Quality::Good));
    // A Bad window must be seen on three consecutive passes.
    for k in 1..3u64 {
        append_always(&mut w, base + 5 * k, 600.0);
        w.classify_once(base + 5 * k);
        let rec = w.kv.get(&link()).unwrap();
        assert_eq!(rec.quality, Some(Quality::Good), "pass {k} keeps the applied class");
        assert_eq!(rec.ospf_cost, Some(10));
        assert_eq!(w.cls.last_policy(&link()).unwrap().streak, k as u32);
    }
    append_always(&mut w, base + 15, 600.0);
    w.classify_once(base + 15);
    let rec = w.kv.get(&link()).unwrap();
    assert_eq!(rec.quality, Some(Quality::Bad));
    assert_eq!(rec.ospf_cost, Some(100));
}

#[test]
fn wobble_back_to_applied_class_resets_the_count() {
    let mut w = World::new(1200, 3600);
    let base = 1_700_000_000;
    append_always(&mut w, base, 15.0);
    w.classify_once(base);
    for (k, rtt) in [(1u64, 600.0), (2, 600.0), (3, 15.0), (4, 600.0), (5, 600.0)] {
        append_always(&mut w, base + 5 * k, rtt);
        w.classify_once(base + 5 * k);
        assert_eq!(w.kv.get(&link()).unwrap().quality, Some(Quality::Good), "pass {k}");
    }
    append_always(&mut w, base + 30, 600.0);
    w.classify_once(base + 30);
    assert_eq!(w.kv.get(&link()).unwrap().quality, Some(Quality::Bad));
}
