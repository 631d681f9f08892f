use mielofon::controller::kv::LwwStore;
use mielofon::controller::model::{LinkKey, Metrics, ProbeState, QualityRecord};

fn record(rtt: f64, loss: f64, rr: f64, tcp: Option<f64>, state: ProbeState, ts: u64) -> QualityRecord<Metrics<f64>> {
    let mut r = QualityRecord::new(
        Metrics { rtt_ms: Some(rtt), loss_pct: Some(loss), rr_tps: Some(rr), tcp_mbps: tcp, udp_mbps: None, util_mbps: 0.0 },
        state,
    );
    r.ts = ts;
    r
}

#[test]
fn lww_keeps_latest_ts() {
    let mut store = LwwStore::new();
    let key = LinkKey::new("hub-a", "hub-b", "awg0");
    let old = record(10.0, 0.0, 80.0, Some(70.0), ProbeState::Quiet, 100);
    store.put(key.clone(), old);
    let new = record(200.0, 90.0, 5.0, None, ProbeState::Conflict, 200);
    store.put(key.clone(), new);
    assert_eq!(store.get(&key).unwrap().ts, 200);
    assert_eq!(store.len(), 1);
}

#[test]
fn older_does_not_override() {
    let mut store = LwwStore::new();
    let key = LinkKey::new("a", "p", "if0");
    let fresh = record(1.0, 0.0, 1.0, None, ProbeState::Quiet, 500);
    store.put(key.clone(), fresh);
    let stale = record(2.0, 0.0, 1.0, None, ProbeState::Quiet, 400);
    store.put(key.clone(), stale);
    assert_eq!(store.get(&key).unwrap().ts, 500);
}

#[test]
fn equal_timestamp_takes_the_newer_write() {
    let mut store = LwwStore::new();
    let key = LinkKey::new("a", "b", "i");
    store.put(key.clone(), record(1.0, 0.0, 1.0, None, ProbeState::Quiet, 10));
    store.put(key.clone(), record(2.0, 0.0, 1.0, None, ProbeState::Busy, 10));
    assert_eq!(store.get(&key).unwrap().state, ProbeState::Busy);
}

#[test]
fn merge_keeps_newest_per_link_in_any_order() {
    let a = LinkKey::new("a", "b", "i");
    let r1 = record(1.0, 0.0, 1.0, None, ProbeState::Quiet, 10);
    let r2 = record(2.0, 0.0, 1.0, None, ProbeState::Quiet, 20);
    let mut s1 = LwwStore::new();
    s1.merge(&[(a.clone(), r1), (a.clone(), r2)]);
    let mut s2 = LwwStore::new();
    s2.merge(&[(a.clone(), r2), (a.clone(), r1)]);
    assert_eq!(s1.get(&a).unwrap().ts, 20);
    assert_eq!(s2.get(&a).unwrap().ts, 20);
}

#[test]
fn prune_drops_records_past_the_grace() {
    let mut store = LwwStore::new();
    let a = LinkKey::new("a", "b", "i");
    let b = LinkKey::new("a", "c", "j");
    store.put(a.clone(), record(1.0, 0.0, 1.0, None, ProbeState::Quiet, 100));
    store.put(b.clone(), record(1.0, 0.0, 1.0, None, ProbeState::Quiet, 300));
    store.prune(400, 200);
    assert!(store.get(&a).is_none());
    assert_eq!(store.get(&b).unwrap().ts, 300);
    assert_eq!(store.all().len(), 1);
    assert!(!store.is_empty());
}

#[test]
fn put_returns_the_previous_record() {
    let mut store = LwwStore::new();
    let key = LinkKey::new("a", "b", "i");
    assert!(store.put(key.clone(), record(1.0, 0.0, 1.0, None, ProbeState::Quiet, 10)).is_none());
    let prev = store.put(key.clone(), record(2.0, 0.0, 1.0, None, ProbeState::Quiet, 20)).unwrap();
    assert_eq!(prev.ts, 10);
    // A stale write is refused; the held record is still what comes back.
    let prev = store.put(key.clone(), record(3.0, 0.0, 1.0, None, ProbeState::Quiet, 5)).unwrap();
    assert_eq!(prev.ts, 20);
    assert_eq!(store.get(&key).unwrap().ts, 20);
}

#[test]
fn two_gossip_merges_commute() {
    let a = LinkKey::new("a", "b", "i");
    let b = LinkKey::new("b", "a", "i");
    let xs = vec![(a.clone(), record(1.0, 0.0, 1.0, None, ProbeState::Quiet, 30)), (b.clone(), record(1.0, 0.0, 1.0, None, ProbeState::Quiet, 5))];
    let ys = vec![(a.clone(), record(2.0, 0.0, 1.0, None, ProbeState::Busy, 20)), (b.clone(), record(2.0, 0.0, 1.0, None, ProbeState::Busy, 50))];
    let mut s1 = LwwStore::new();
    s1.put(a.clone(), record(9.0, 0.0, 1.0, None, ProbeState::Quiet, 25));
    let mut s2 = LwwStore::new();
    s2.put(a.clone(), record(9.0, 0.0, 1.0, None, ProbeState::Quiet, 25));
    s1.merge(&xs);
    s1.merge(&ys);
    s2.merge(&ys);
    s2.merge(&xs);
    for k in [&a, &b] {
        let (r1, r2) = (s1.get(k).unwrap(), s2.get(k).unwrap());
        assert_eq!((r1.ts, r1.state, r1.metrics.rtt_ms), (r2.ts, r2.state, r2.metrics.rtt_ms));
    }
    assert_eq!(s1.get(&a).unwrap().ts, 30);
    assert_eq!(s1.get(&b).unwrap().ts, 50);
}
