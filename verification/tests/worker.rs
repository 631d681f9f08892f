use mielofon::controller::model::LinkKey;
use mielofon::controller::worker::{Tier, WorkCmd, WorkerRegistry};

fn link() -> LinkKey {
    LinkKey::new("spoke-1", "hub-a", "awg_hub_a")
}

fn probe(id: &str, tier: Tier, token: Option<&str>) -> WorkCmd {
    WorkCmd::Probe { id: id.to_string(), tier, token: token.map(|t| t.to_string()), link: link(), traceparent: None }
}

#[test]
fn register_adds_links_and_marks_owned() {
    let mut r = WorkerRegistry::new();
    assert!(r.register("spoke-1", vec![link()]));
    assert_eq!(r.len(), 1);
    let owned = r.owned_links();
    assert_eq!(owned.len(), 1);
    assert_eq!(owned[0].0, "spoke-1");
}

#[test]
fn always_due_at_first_then_not_until_interval() {
    let mut r = WorkerRegistry::new();
    r.register("spoke-1", vec![link()]);
    assert!(r.always_due("spoke-1", &link(), 1000, 15));
    r.mark_issued("spoke-1", &link(), Tier::Always, 1000);
    assert!(!r.always_due("spoke-1", &link(), 1010, 15));
    assert!(r.always_due("spoke-1", &link(), 1015, 15));
}

#[test]
fn pending_commands_are_drained_once() {
    let mut r = WorkerRegistry::new();
    r.register("spoke-1", vec![link()]);
    r.push("spoke-1", probe("x", Tier::Always, None));
    assert_eq!(r.drain("spoke-1").len(), 1);
    assert_eq!(r.drain("spoke-1").len(), 0);
}

#[test]
fn applied_sent_tracking() {
    let mut r = WorkerRegistry::new();
    r.register("spoke-1", vec![link()]);
    assert_eq!(r.applied_sent("spoke-1", &link()), None);
    r.set_applied_sent("spoke-1", &link(), 50);
    assert_eq!(r.applied_sent("spoke-1", &link()), Some(50));
}

#[test]
fn push_dedups_same_link_tier() {
    let mut r = WorkerRegistry::new();
    r.register("spoke-1", vec![link()]);
    // Same (link, tier) queued repeatedly → only one makes it in.
    assert!(r.push("spoke-1", probe("a", Tier::Always, None)));
    assert!(!r.push("spoke-1", probe("b", Tier::Always, None)));
    assert_eq!(r.drain("spoke-1").len(), 1);
}

#[test]
fn register_drops_stale_queued_work() {
    let mut r = WorkerRegistry::new();
    r.register("spoke-1", vec![link()]);
    r.push("spoke-1", probe("stale", Tier::Throughput, Some("tok")));
    // Re-register (e.g. agent reconnect) clears anything queued while away.
    assert!(!r.register("spoke-1", vec![link()]));
    assert!(r.drain("spoke-1").is_empty());
    // New work is accepted after the reset.
    r.push("spoke-1", probe("fresh", Tier::Always, None));
    assert_eq!(r.drain("spoke-1").len(), 1);
}

#[test]
fn unknown_agent_gets_no_work() {
    let mut r = WorkerRegistry::new();
    assert!(!r.push("ghost", probe("a", Tier::Always, None)));
    assert!(r.drain("ghost").is_empty());
    assert!(!r.has_agent("ghost"));
    assert!(r.is_empty());
}

#[test]
fn different_tiers_queue_separately_and_loopback_is_kept() {
    let mut r = WorkerRegistry::new();
    r.register_at("spoke-1", vec![link()], Some("fd00::1".to_string()), 5);
    assert!(r.push("spoke-1", probe("a", Tier::Always, None)));
    assert!(r.push("spoke-1", probe("b", Tier::Throughput, Some("t"))));
    assert_eq!(r.drain("spoke-1").len(), 2);
    assert_eq!(r.loopback("spoke-1"), Some("fd00::1".to_string()));
    assert_eq!(r.agents(), vec!["spoke-1".to_string()]);
}
