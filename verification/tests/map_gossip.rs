use mielofon::controller::config::TsConfig;
use mielofon::controller::gossip::{exchange_at, gossip_targets, take_for_peer};
use mielofon::controller::kv::LwwStore;
use mielofon::controller::map::graph_part;
use mielofon::controller::model::{LinkKey, Metrics, ProbeState, Quality, QualityRecord};
use mielofon::controller::state::{PeerHealth, Ready};
use mielofon::controller::tsdb::{RawSample, Tsdb};

fn rec(ts: u64, q: Option<Quality>) -> QualityRecord<Metrics<f64>> {
    QualityRecord {
        ts,
        metrics: Metrics { rtt_ms: Some(9.0), loss_pct: None, rr_tps: None, tcp_mbps: None, udp_mbps: None, util_mbps: 1.0 },
        state: ProbeState::Quiet,
        quality: q,
        ospf_cost: q.map(|_| 10),
    }
}

#[test]
fn graph_lists_members_and_link_ends_sorted() {
    let mut kv = LwwStore::new();
    kv.put(LinkKey::new("spoke-2", "hub-b", "awg0"), rec(5, Some(Quality::Good)));
    kv.put(LinkKey::new("spoke-1", "hub-a", "awg1"), rec(6, None));
    let members = vec!["hub-b".to_string(), "hub-a".to_string()];
    let (nodes, links) = graph_part(&members, &kv);
    let ids: Vec<&str> = nodes.iter().map(|n| n.id.as_str()).collect();
    assert_eq!(ids, ["hub-a", "hub-b", "spoke-1", "spoke-2"]);
    let groups: Vec<&str> = nodes.iter().map(|n| n.group.as_str()).collect();
    assert_eq!(groups, ["hub", "hub", "spoke", "spoke"]);
    assert_eq!(links.len(), 2);
    let l = links.iter().find(|l| l.from == "spoke-2").unwrap();
    assert_eq!(l.quality.as_deref(), Some("good"));
    assert_eq!(l.state, "quiet");
    assert_eq!(l.ts, 5);
}

#[test]
fn exchange_merges_and_answers_with_our_view() {
    let mut kv = LwwStore::new();
    let mut tsdb: Tsdb<f64> = Tsdb::new(&TsConfig::default());
    let mut peers = PeerHealth::new();
    let a = LinkKey::new("s", "h", "i");
    tsdb.append(&a, RawSample::from_dims(ProbeState::Quiet, 10, Some(1.0), None, None, None, 0.0));
    let reply = exchange_at(&mut kv, &mut tsdb, &mut peers, "hub-b", &[(a.clone(), rec(3, None))], &[], 77);
    assert_eq!(reply.records.len(), 1);
    assert_eq!(reply.ts_samples.len(), 1);
    // The samples sent count as delivered: nothing left for the next round.
    assert!(take_for_peer(&tsdb, "hub-b").0.is_empty());
    let again = exchange_at(&mut kv, &mut tsdb, &mut peers, "hub-b", &[], &[], 78);
    assert!(again.ts_samples.is_empty());
    // Another peer's watermark is its own: it still gets the sample.
    let other = exchange_at(&mut kv, &mut tsdb, &mut peers, "hub-c", &[], &[], 79);
    assert_eq!(other.ts_samples.len(), 1);
    assert_eq!(other.ts_samples[0].1.ts, 10);
    let snap = peers.snapshot();
    assert_eq!(snap.len(), 2);
    assert!(snap.iter().any(|(p, e)| p == "hub-b" && e.last_ok_ts == Some(78)));
}

#[test]
fn gossip_skips_self() {
    let members = vec!["hub-a".to_string(), "hub-b".to_string(), "hub-c".to_string()];
    assert_eq!(gossip_targets(&members, "hub-b"), vec!["hub-a".to_string(), "hub-c".to_string()]);
}

#[test]
fn readiness_and_peer_health() {
    let mut r = Ready::new();
    assert!(!r.is_ready());
    r.set_ready(true);
    assert!(r.is_ready());
    let mut p = PeerHealth::new();
    p.mark_ok_at("hub-b", 12, 1000);
    p.mark_ok_at("hub-b", 15, 1005);
    let snap = p.snapshot();
    assert_eq!(snap.len(), 1);
    assert_eq!(snap[0].1.rtt_ms, Some(15));
    assert_eq!(snap[0].1.last_ok_ts, Some(1005));
}
