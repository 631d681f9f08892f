use mielofon::controller::fence::Fence;
use mielofon::controller::kv::LwwStore;
use mielofon::controller::model::{LinkKey, Metrics, ProbeState, Quality, QualityRecord};
use mielofon::controller::scheduler::{plan_tick_at, ALWAYS_INTERVAL, THROUGHPUT_INTERVAL};
use mielofon::controller::worker::{Tier, WorkCmd, WorkerRegistry};

fn link() -> LinkKey {
    LinkKey::new("spoke-1", "hub-a", "awg_hub_a")
}

fn rec(cost: u32) -> QualityRecord<Metrics<f64>> {
    QualityRecord {
        ts: 1,
        metrics: Metrics { rtt_ms: None, loss_pct: None, rr_tps: None, tcp_mbps: None, udp_mbps: None, util_mbps: 0.0 },
        state: ProbeState::Quiet,
        quality: Some(Quality::Good),
        ospf_cost: Some(cost),
    }
}

#[test]
fn first_tick_issues_probes_and_cost() {
    let mut workers = WorkerRegistry::new();
    workers.register_at("spoke-1", vec![link()], None, 0);
    let mut fence = Fence::new();
    let mut kv = LwwStore::new();
    kv.put(link(), rec(10));
    plan_tick_at(&mut workers, &mut fence, &kv, 1000);
    let cmds = workers.drain("spoke-1");
    assert_eq!(cmds.len(), 3);
    assert!(cmds.iter().any(|c| matches!(c, WorkCmd::Probe { tier: Tier::Always, .. })));
    assert!(cmds.iter().any(|c| matches!(c, WorkCmd::Probe { tier: Tier::Throughput, token: Some(_), .. })));
    assert!(cmds.iter().any(|c| matches!(c, WorkCmd::ApplyCost { cost: 10, .. })));
    // The throughput probe holds the link's lease.
    assert_eq!(fence.leases().len(), 1);
    assert_eq!(workers.applied_sent("spoke-1", &link()), Some(10));

    // Within the intervals nothing new is due and the cost is not re-sent.
    plan_tick_at(&mut workers, &mut fence, &kv, 1000 + ALWAYS_INTERVAL - 1);
    assert!(workers.drain("spoke-1").is_empty());
    plan_tick_at(&mut workers, &mut fence, &kv, 1000 + ALWAYS_INTERVAL);
    let cmds = workers.drain("spoke-1");
    assert_eq!(cmds.len(), 1);
    assert!(THROUGHPUT_INTERVAL > ALWAYS_INTERVAL);
}

#[test]
fn always_probe_is_not_gated_by_a_held_lease() {
    let mut workers = WorkerRegistry::new();
    workers.register_at("spoke-1", vec![link()], None, 0);
    let mut fence = Fence::new();
    // Another agent holds the link's lease for the whole tick.
    fence.acquire_at("spoke-2", &link().id(), 3600, 1000, "t-other".to_string()).unwrap();
    let kv: LwwStore<Metrics<f64>> = LwwStore::new();
    plan_tick_at(&mut workers, &mut fence, &kv, 1000);
    let cmds = workers.drain("spoke-1");
    assert_eq!(cmds.len(), 1);
    assert!(matches!(&cmds[0], WorkCmd::Probe { tier: Tier::Always, token: None, .. }));
    // The held lease is untouched and no throughput probe went out.
    let leases = fence.leases();
    assert_eq!(leases.len(), 1);
    assert_eq!(leases[0].holder, "spoke-2");
}
