use mielofon::controller::api::{
    default_timeout_ms, default_ttl, fence_acquire, fence_acquire_at, fence_release, ingest_quality_at, long_poll_timeout_ms,
    quality_label_value, register_agent_at, AcquireReq, ReleaseReq,
};
use mielofon::controller::fence::Fence;
use mielofon::controller::kv::LwwStore;
use mielofon::controller::model::{LinkKey, Metrics, ProbeState, Quality, QualityRecord};
use mielofon::controller::quality::{DimCrossings, QualityCosts};
use mielofon::controller::worker::{RegisterReq, WorkCmd, WorkerRegistry};

fn metrics() -> Metrics<f64> {
    Metrics { rtt_ms: Some(15.0), loss_pct: Some(0.0), rr_tps: Some(90.0), tcp_mbps: Some(1.5), udp_mbps: None, util_mbps: 0.0 }
}

fn throttled() -> DimCrossings {
    DimCrossings {
        rtt_ms: Some([false; 4]),
        loss_pct: Some([false; 4]),
        jitter_ms: None,
        tcp_mbps: Some([true, true, true, false]),
    }
}

#[test]
fn defaults() {
    assert_eq!(default_ttl(), 120);
    assert_eq!(default_timeout_ms(), 30_000);
    assert_eq!(long_poll_timeout_ms(500_000), 120_000);
    assert_eq!(long_poll_timeout_ms(0), 0);
}

#[test]
fn acquire_answers() {
    let mut f = Fence::new();
    let bad = fence_acquire(&mut f, &AcquireReq { agent: String::new(), link: "l".to_string(), ttl_secs: 5 });
    assert!(!bad.ok);
    assert_eq!(bad.reason, Some("invalid"));
    let ok = fence_acquire_at(&mut f, &AcquireReq { agent: "a".to_string(), link: "l".to_string(), ttl_secs: 0 }, 100, "tok".to_string());
    assert!(ok.ok);
    assert_eq!(ok.token.as_deref(), Some("tok"));
    assert_eq!(ok.ttl, Some(1));
    let held = fence_acquire_at(&mut f, &AcquireReq { agent: "b".to_string(), link: "l".to_string(), ttl_secs: 30 }, 100, "t2".to_string());
    assert!(!held.ok);
    assert_eq!(held.holder.as_deref(), Some("a"));
    assert_eq!(held.reason, Some("held"));
    let wrong = fence_release(&mut f, &ReleaseReq { link: "l".to_string(), token: "x".to_string() });
    assert_eq!(wrong.reason, Some("notheld"));
    let right = fence_release(&mut f, &ReleaseReq { link: "l".to_string(), token: "tok".to_string() });
    assert!(right.ok);
}

#[test]
fn ingest_classifies_stores_and_releases_the_lease() {
    let mut kv = LwwStore::new();
    let mut fence = Fence::new();
    let link = LinkKey::new("spoke-1", "hub-a", "awg_hub_a");
    let lease = fence.acquire_at("spoke-1", &link.id(), 60, 1, "tok".to_string()).unwrap();
    let (q, cost) = ingest_quality_at(
        &mut kv,
        &mut fence,
        link.clone(),
        Some(500),
        metrics(),
        ProbeState::Quiet,
        Some(lease.token.clone()),
        &throttled(),
        &QualityCosts::default(),
        999,
    );
    assert_eq!(q, Some(Quality::Bad));
    assert_eq!(cost, Some(100));
    let rec = kv.get(&link).unwrap();
    assert_eq!(rec.ts, 500);
    assert_eq!(rec.ospf_cost, Some(100));
    assert!(fence.leases().is_empty());

    let (q2, c2) = ingest_quality_at(&mut kv, &mut fence, link.clone(), None, metrics(), ProbeState::Busy, None, &throttled(), &QualityCosts::default(), 999);
    assert_eq!((q2, c2), (None, None));
    assert_eq!(kv.get(&link).unwrap().ts, 999);
    assert_eq!(kv.get(&link).unwrap().quality, None);
}

#[test]
fn register_seeds_current_policy_once() {
    let mut workers = WorkerRegistry::new();
    let mut kv = LwwStore::new();
    let link = LinkKey::new("spoke-1", "hub-a", "awg_hub_a");
    kv.put(
        link.clone(),
        QualityRecord { ts: 1, metrics: metrics(), state: ProbeState::Quiet, quality: Some(Quality::Poor), ospf_cost: Some(50) },
    );
    let req = || RegisterReq { agent: "spoke-1".to_string(), links: vec![link.clone()], loopback: None };
    let resp = register_agent_at(&mut workers, &kv, req(), 10);
    assert!(resp.ok);
    assert_eq!(resp.commands.len(), 1);
    match &resp.commands[0] {
        WorkCmd::ApplyCost { id, cost, .. } => {
            assert_eq!(id, "apply/spoke-1/spoke-1/hub-a/awg_hub_a");
            assert_eq!(*cost, 50);
        },
        other => panic!("unexpected {other:?}"),
    }
    // Already told: a second registration seeds nothing.
    let again = register_agent_at(&mut workers, &kv, req(), 20);
    assert!(again.commands.is_empty());
    let refused = register_agent_at(&mut workers, &kv, RegisterReq { agent: String::new(), links: vec![], loopback: None }, 30);
    assert!(!refused.ok);
}

#[test]
fn quality_labels() {
    assert_eq!(quality_label_value("good"), 0);
    assert_eq!(quality_label_value("acceptable"), 1);
    assert_eq!(quality_label_value("poor"), 2);
    assert_eq!(quality_label_value("bad"), 3);
    assert_eq!(quality_label_value("unknown"), 99);
}

#[test]
fn echoed_token_lets_another_agent_acquire() {
    let mut kv = LwwStore::new();
    let mut fence = Fence::new();
    let link = LinkKey::new("spoke-1", "hub-a", "awg_hub_a");
    let lease = fence.acquire_at("spoke-1", &link.id(), 600, 10, "tok".to_string()).unwrap();
    // While the lease is live another agent is refused.
    assert!(fence.acquire_at("spoke-2", &link.id(), 600, 20, "t2".to_string()).is_err());
    // A report with a stale token leaves the lease in place.
    ingest_quality_at(&mut kv, &mut fence, link.clone(), None, metrics(), ProbeState::Quiet, Some("old".to_string()), &throttled(), &QualityCosts::default(), 30);
    assert_eq!(fence.leases().len(), 1);
    // The echoing report frees the link at once.
    ingest_quality_at(&mut kv, &mut fence, link.clone(), None, metrics(), ProbeState::Quiet, Some(lease.token), &throttled(), &QualityCosts::default(), 40);
    let next = fence.acquire_at("spoke-2", &link.id(), 600, 41, "t3".to_string()).unwrap();
    assert_eq!(next.holder, "spoke-2");
}
