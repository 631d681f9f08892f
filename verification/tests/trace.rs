use mielofon::controller::kv::LwwStore;
use mielofon::controller::model::{LinkKey, Metrics, ProbeState, Quality, QualityRecord};
use mielofon::controller::trace::{
    all_next_hops, enqueue_trace_hop, resolve_prefix, trace_hop_id, NextHopRep, RouteRep, TraceCache, TraceError,
    TraceHopReply, TraceRequest, TraceResult, TraceWalk, HOP_CAP,
};
use mielofon::controller::worker::{WorkCmd, WorkerRegistry};

fn registry(agents: &[(&str, Option<&str>, Vec<LinkKey>)]) -> WorkerRegistry {
    let mut r = WorkerRegistry::new();
    for (name, lb, links) in agents {
        r.register_at(name, links.clone(), lb.map(|s| s.to_string()), 1);
    }
    r
}

fn seed(kv: &mut LwwStore<Metrics<f64>>, from: &str, to: &str, iface: &str, quality: Quality) {
    let rec = QualityRecord {
        ts: 1_700_000_000,
        metrics: Metrics { rtt_ms: Some(9.0), loss_pct: Some(0.0), rr_tps: Some(99.0), tcp_mbps: Some(50.0), udp_mbps: None, util_mbps: 0.0 },
        state: ProbeState::Quiet,
        quality: Some(quality),
        ospf_cost: Some(10),
    };
    kv.put(LinkKey::new(from, to, iface), rec);
}

fn via(iface: &str) -> NextHopRep {
    NextHopRep::Via { addr: None, iface: Some(iface.to_string()), cost: Some(10), proto: None }
}

fn dev() -> NextHopRep {
    NextHopRep::Dev { iface: Some("dummy_awg".to_string()), cost: Some(0), proto: None }
}

fn route(hops: Vec<NextHopRep>) -> RouteRep {
    RouteRep {
        prefix: "fd00:0:0:1::3/128".to_string(),
        primary: None,
        proto: None,
        preference: None,
        cost: Some(10),
        local_pref: None,
        as_path: None,
        next_hops: hops,
    }
}

/// Drive the walk with a fake routing table.
fn drive(
    workers: &WorkerRegistry,
    kv: &LwwStore<Metrics<f64>>,
    table: impl Fn(&str) -> Result<Vec<RouteRep>, String>,
) -> TraceResult<f64> {
    let mut w = TraceWalk::new("spoke-1");
    while let Some(node) = w.next_node() {
        let reply = table(&node).map(|routes| TraceHopReply { agent: node.clone(), prefix: "p".to_string(), code: 0, routes });
        w.on_reply(&reply, workers, kv);
    }
    let res = w.into_result("spoke-1", Some("node-z".to_string()), "fd00:0:0:1::3", 7);
    // The flags say exactly what the rows show.
    assert_eq!(res.complete, res.edges.iter().any(|e| e.term));
    assert_eq!(res.cap_hit, res.edges.iter().any(|e| e.depth >= 24));
    assert!(res.edges.iter().filter(|e| e.depth >= 24).all(|e| e.broken && e.reason.as_deref() == Some("hop cap (24) reached")));
    res
}

#[test]
fn happy_path_terminates_on_dev() {
    let workers = registry(&[
        ("spoke-1", Some("fd00:0:0:1::1"), vec![LinkKey::new("spoke-1", "hub-a", "awg_hub_a")]),
        ("hub-a", Some("fd00:0:0:1::2"), vec![LinkKey::new("hub-a", "spoke-1", "awg_spoke_1"), LinkKey::new("hub-a", "node-z", "awg_node_z")]),
        ("node-z", Some("fd00:0:0:1::3"), vec![LinkKey::new("node-z", "hub-a", "awg_hub_a")]),
    ]);
    let mut kv = LwwStore::new();
    seed(&mut kv, "spoke-1", "hub-a", "awg_hub_a", Quality::Good);
    let res = drive(&workers, &kv, |agent| {
        Ok(match agent {
            "spoke-1" => vec![route(vec![via("awg_hub_a")])],
            "hub-a" => vec![route(vec![via("awg_node_z")])],
            _ => vec![route(vec![dev()])],
        })
    });
    assert!(res.complete, "trace must reach the destination");
    assert!(!res.cap_hit);
    let dep: Vec<&str> = res.edges.iter().map(|e| e.node.as_str()).collect();
    assert_eq!(dep, ["spoke-1", "hub-a", "node-z"]);
    let first = &res.edges[0];
    assert_eq!(first.iface.as_deref(), Some("awg_hub_a"));
    assert_eq!(first.to.as_deref(), Some("hub-a"));
    assert!(!first.broken);
    assert_eq!(first.rtt_ms, Some(9.0));
    assert_eq!(first.quality.as_deref(), Some("good"));
    assert_eq!(first.ospf_cost, Some(10));
    // hub-a -> node-z has no KV record: broken, but still expanded.
    assert!(res.edges[1].broken);
    assert_eq!(res.edges[1].reason.as_deref(), Some("no probe data for edge"));
    let term = &res.edges[2];
    assert!(term.term);
    assert_eq!(term.node, "node-z");
}

#[test]
fn ecmp_fanout_and_dead_end() {
    let workers = registry(&[
        ("spoke-1", Some("fd00:0:0:1::1"), vec![LinkKey::new("spoke-1", "hub-a", "awg_hub_a")]),
        (
            "hub-a",
            Some("fd00:0:0:1::2"),
            vec![
                LinkKey::new("hub-a", "spoke-1", "awg_spoke_1"),
                LinkKey::new("hub-a", "hub-b", "awg_hub_b"),
                LinkKey::new("hub-a", "hub-x", "awg_hub_x"),
            ],
        ),
        ("hub-b", Some("fd00:0:0:1::3"), vec![LinkKey::new("hub-b", "hub-a", "awg_hub_a"), LinkKey::new("hub-b", "node-z", "awg_node_z")]),
        ("node-z", Some("fd00:0:0:1::4"), vec![]),
        ("hub-x", Some("fd00:0:0:1::99"), vec![]),
    ]);
    let mut kv = LwwStore::new();
    seed(&mut kv, "hub-a", "hub-b", "awg_hub_b", Quality::Acceptable);
    let res = drive(&workers, &kv, |agent| {
        Ok(match agent {
            "spoke-1" => vec![route(vec![via("awg_hub_a")])],
            "hub-a" => vec![route(vec![via("awg_hub_b"), via("awg_hub_x")])],
            "hub-b" => vec![route(vec![dev()])],
            _ => Vec::new(),
        })
    });
    assert!(res.complete);
    let depth1: Vec<_> = res.edges.iter().filter(|e| e.depth == 1).collect();
    assert_eq!(depth1.len(), 2, "ECMP must produce two edges from hub-a");
    let e = depth1.iter().find(|e| e.iface.as_deref() == Some("awg_hub_b")).expect("primary ECMP edge");
    assert_eq!(e.to.as_deref(), Some("hub-b"));
    assert!(!e.broken);
    assert_eq!(e.ospf_cost, Some(10));
    let dead = depth1.iter().find(|e| e.iface.as_deref() == Some("awg_hub_x")).expect("secondary ECMP edge");
    assert_eq!(dead.to.as_deref(), Some("hub-x"));
    assert!(dead.broken, "dead branch should be marked broken");
    let dead_row = res.edges.iter().find(|e| e.node == "hub-x").expect("hub-x visited");
    assert!(dead_row.broken);
    assert_eq!(dead_row.reason.as_deref(), Some("unresolvable"));
}

#[test]
fn hop_cap_cuts_long_chains() {
    let mut agents: Vec<(String, Vec<LinkKey>)> = vec![("spoke-1".to_string(), vec![LinkKey::new("spoke-1", "node-00", "awg_00")])];
    for i in 0..=HOP_CAP {
        let name = format!("node-{i:02}");
        let links = if i < HOP_CAP { vec![LinkKey::new(&name, &format!("node-{:02}", i + 1), &format!("awg_{i:02}"))] } else { Vec::new() };
        agents.push((name, links));
    }
    let mut workers = WorkerRegistry::new();
    for (name, links) in &agents {
        workers.register_at(name, links.clone(), Some("fd00:0:0:1::ff".to_string()), 1);
    }
    let kv = LwwStore::new();
    let res = drive(&workers, &kv, |agent| {
        let n = if agent == "spoke-1" { 0 } else { agent.strip_prefix("node-").and_then(|r| r.parse::<usize>().ok()).unwrap_or(999) };
        Ok(vec![route(vec![via(&format!("awg_{n:02}"))])])
    });
    assert!(!res.complete);
    assert!(res.cap_hit, "a long chain must end at the hop cap");
    // HOP_CAP via edges + one cap marker row.
    assert_eq!(res.edges.len(), HOP_CAP + 1);
    let cap_rows = res.edges.iter().filter(|e| e.reason.as_deref().is_some_and(|r| r.contains("hop cap")));
    assert_eq!(cap_rows.count(), 1);
}

#[test]
fn routing_loop_recorded_but_not_reexpanded() {
    let workers = registry(&[
        ("spoke-1", Some("fd00:0:0:1::1"), vec![LinkKey::new("spoke-1", "hub-a", "awg_hub_a")]),
        ("hub-a", Some("fd00:0:0:1::2"), vec![LinkKey::new("hub-a", "spoke-1", "awg_spoke_1"), LinkKey::new("hub-a", "hub-b", "awg_hub_b")]),
        ("hub-b", Some("fd00:0:0:1::3"), vec![LinkKey::new("hub-b", "hub-a", "awg_hub_a")]),
    ]);
    let kv = LwwStore::new();
    let res = drive(&workers, &kv, |agent| Ok(vec![route(vec![via(if agent == "hub-a" { "awg_hub_b" } else { "awg_hub_a" })])]));
    assert!(!res.complete);
    assert!(!res.cap_hit);
    let mut probed: Vec<&str> = res.edges.iter().map(|e| e.node.as_str()).collect();
    probed.dedup();
    assert_eq!(probed.len(), 3);
    assert_eq!(res.edges.len(), 3);
}

#[test]
fn unanswered_hop_is_a_broken_row() {
    let workers = registry(&[("spoke-1", None, vec![])]);
    let kv = LwwStore::new();
    let res = drive(&workers, &kv, |_| Err("hop 'spoke-1' unanswered (timeout)".to_string()));
    assert_eq!(res.edges.len(), 1);
    assert!(res.edges[0].broken);
    assert_eq!(res.edges[0].reason.as_deref(), Some("hop 'spoke-1' unanswered (timeout)"));
}

#[test]
fn next_hops_are_deduplicated_across_routes() {
    let routes = vec![route(vec![via("a"), dev()]), route(vec![via("a"), via("b"), dev()])];
    let hops = all_next_hops(&routes);
    assert_eq!(hops.len(), 3);
}

#[test]
fn request_validation() {
    let workers = registry(&[("spoke-1", Some("fd00::1"), vec![]), ("hub-a", None, vec![])]);
    let req = |from: &str, to: Option<&str>, prefix: Option<&str>| TraceRequest {
        from: from.to_string(),
        to: to.map(|s| s.to_string()),
        prefix: prefix.map(|s| s.to_string()),
    };
    let msg = |r: Result<String, TraceError>| match r {
        Err(e) => e.message(),
        Ok(p) => format!("ok {p}"),
    };
    assert_eq!(msg(resolve_prefix(&workers, &req("", None, None))), "missing from");
    assert_eq!(msg(resolve_prefix(&workers, &req("x", None, None))), "unknown source agent 'x' (not registered)");
    assert_eq!(msg(resolve_prefix(&workers, &req("spoke-1", None, Some("10.0.0.0/8")))), "ok 10.0.0.0/8");
    assert_eq!(msg(resolve_prefix(&workers, &req("spoke-1", Some("spoke-1"), Some("")))), "ok fd00::1");
    assert_eq!(
        msg(resolve_prefix(&workers, &req("spoke-1", Some("hub-a"), None))),
        "cannot resolve 'hub-a' to a prefix (agent never reported a loopback)"
    );
    assert_eq!(msg(resolve_prefix(&workers, &req("spoke-1", None, None))), "missing to or prefix");
}

#[test]
fn trace_hops_are_queued_per_id() {
    let mut workers = registry(&[("hub-a", None, vec![])]);
    assert_eq!(trace_hop_id(&workers, "ghost"), Err("agent 'ghost' is not registered".to_string()));
    let id = trace_hop_id(&workers, "hub-a").unwrap();
    assert!(enqueue_trace_hop(&mut workers, "hub-a", &id, "fd00::3").is_ok());
    assert!(enqueue_trace_hop(&mut workers, "hub-a", &id, "fd00::3").is_err());
    let cmds = workers.drain("hub-a");
    assert_eq!(cmds.len(), 1);
    assert!(matches!(&cmds[0], WorkCmd::Trace { target, .. } if target == "fd00::3"));
}

#[test]
fn cache_serves_fresh_results_only() {
    let mut cache: TraceCache<f64> = TraceCache::new();
    let walk: TraceWalk<f64> = TraceWalk::new("spoke-1");
    let res = walk.into_result("spoke-1", None, "p1", 1);
    cache.put_at("spoke-1", &res, 0);
    assert!(cache.get_at("spoke-1", "p1", 5_000_000_000).is_some());
    assert!(cache.get_at("spoke-1", "p2", 5_000_000_000).is_none());
    assert!(cache.get_at("spoke-1", "p1", 5_000_000_001).is_none());
}
