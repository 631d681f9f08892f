use mielofon::agent::probes::{ping_loss_text, ping_rtt_text, rr_rate_texts};
use mielofon::agent::client::split_body;
use mielofon::agent::config::{Config, LinkConfig, Loop, TlsConfig};
use mielofon::agent::cost::{apply_cost, CostAction};
use mielofon::agent::handler::{plan_command, AgentAction};
use mielofon::agent::model::{LinkKey, ProbeState, WorkCmd};
use mielofon::agent::probes::{is_busy, state_for, ThroughputProbe};
use mielofon::otel::config::OTelConfig;

fn lc(iface: &str, cmd: Option<&str>) -> LinkConfig {
    LinkConfig {
        from: "spoke-1".to_string(),
        to: "hub-a".to_string(),
        interface: iface.to_string(),
        target: "fd00::2".to_string(),
        source: None,
        cost_command: cmd.map(|s| s.to_string()),
    }
}

fn cfg() -> Config<()> {
    Config {
        agent: "spoke-1".to_string(),
        controller: "203.0.113.1".to_string(),
        controller_port: 9552,
        tls: TlsConfig::default(),
        links: vec![lc("awg_hub_a", None), lc("awg_hub_b", Some("set {interface} {cost}"))],
        loop_: Loop::default(),
        probes: (),
        otel: OTelConfig::default(),
    }
}

fn key(iface: &str) -> LinkKey {
    LinkKey { from: "spoke-1".to_string(), to: "hub-a".to_string(), interface: iface.to_string() }
}

#[test]
fn link_lookup_and_keys() {
    let c = cfg();
    assert_eq!(c.link_by_interface("awg_hub_b").unwrap().interface, "awg_hub_b");
    assert!(c.link_by_interface("nope").is_none());
    let keys = c.link_keys();
    assert_eq!(keys.len(), 2);
    assert_eq!(keys[0].id(), "spoke-1/hub-a/awg_hub_a");
    assert_eq!(Loop::default().poll_secs, 2);
    assert_eq!(TlsConfig::default().cert, "/etc/mielofon/agent.pem");
}

#[test]
fn cost_command_substitution() {
    match apply_cost(&lc("awg_x", Some("ip link set {interface} cost {cost}; echo {cost}")), 50) {
        CostAction::Shell(s) => assert_eq!(s, "ip link set awg_x cost 50; echo 50"),
        other => panic!("unexpected {other:?}"),
    }
    match apply_cost(&lc("awg_x", None), 7) {
        CostAction::Birdc(s) => assert_eq!(s, "protocol ospf mesh { interface \"awg_x\" { cost 7; }; }"),
        other => panic!("unexpected {other:?}"),
    }
}

#[test]
fn command_planning() {
    let c = cfg();
    let probe = |tier: &str, iface: &str| WorkCmd::Probe { id: "x".to_string(), tier: tier.to_string(), token: None, link: key(iface) };
    assert!(matches!(plan_command(&c, &probe("always", "awg_hub_b")), AgentAction::RunAlways { link: 1 }));
    assert!(matches!(plan_command(&c, &probe("throughput", "awg_hub_a")), AgentAction::RunThroughput { link: 0 }));
    assert!(matches!(plan_command(&c, &probe("deep", "awg_hub_a")), AgentAction::UnknownTier(t) if t == "deep"));
    assert!(matches!(plan_command(&c, &probe("always", "zz")), AgentAction::UnknownProbeLink(i) if i == "zz"));
    let cost = WorkCmd::ApplyCost { id: "y".to_string(), link: key("awg_hub_a"), cost: 20 };
    assert!(matches!(plan_command(&c, &cost), AgentAction::ApplyCost { link: 0, cost: 20 }));
    let lost = WorkCmd::ApplyCost { id: "y".to_string(), link: key("zz"), cost: 20 };
    assert!(matches!(plan_command(&c, &lost), AgentAction::UnknownCostLink(i) if i == "zz"));
}

#[test]
fn busy_throughput_reports_busy() {
    let busy = ThroughputProbe::<f64> { tcp_mbps: None, util_mbps: 40.0 };
    let quiet = ThroughputProbe { tcp_mbps: Some(80.0), util_mbps: 1.0 };
    assert!(is_busy(&busy));
    assert_eq!(state_for(&busy), ProbeState::Busy);
    assert!(!is_busy(&quiet));
    assert_eq!(state_for(&quiet), ProbeState::Quiet);
}

#[test]
fn response_body_follows_the_headers() {
    let raw = "HTTP/1.1 200 OK\r\nContent-Type: application/json\r\n\r\n  {\"ok\":true}\n";
    assert_eq!(split_body(raw), "{\"ok\":true}");
    // Only the first blank line ends the headers.
    assert_eq!(split_body("H: 1\r\n\r\na\r\n\r\nb"), "a\r\n\r\nb");
    // No blank line: the whole text, trimmed.
    assert_eq!(split_body("  partial response "), "partial response");
    assert_eq!(split_body(""), "");
}

const PING_OUT: &str = "PING 10.0.0.2 (10.0.0.2) 56(84) bytes of data.\n\n--- 10.0.0.2 ping statistics ---\n3 packets transmitted, 3 received, 0% packet loss, time 402ms\nrtt min/avg/max/mdev = 0.041/0.052/0.070/0.012 ms\n";

#[test]
fn ping_summary_fields() {
    // The number before the `%` in the third comma field of the loss line.
    assert_eq!(ping_loss_text(PING_OUT).as_deref(), Some("0"));
    assert_eq!(ping_loss_text("3 packets transmitted, 1 received, 66.7% packet loss, time 2002ms\n").as_deref(), Some("66.7"));
    assert_eq!(ping_loss_text("2 sent, 1 lost, 50%%, packet loss\n").as_deref(), Some("50"));
    assert_eq!(ping_loss_text("1 packet loss, only two\n"), None);
    assert_eq!(ping_loss_text("no summary"), None);
    assert_eq!(ping_rtt_text(PING_OUT).as_deref(), Some("0.041"));
    assert_eq!(ping_rtt_text("round-trip min/avg/max = 1.5/2.0/3.1 ms").as_deref(), Some("1.5"));
    assert_eq!(ping_rtt_text("rtt unavailable\n"), None);
}

#[test]
fn netperf_rate_candidates() {
    let out = "MIGRATED TCP REQUEST/RESPONSE TEST from 0.0.0.0 (0.0.0.0) port 0 AF_INET : first burst 0\r\nLocal /Remote\r\nSocket Size   Request  Resp.   Elapsed  Trans.\nSend   Recv   Size     Size    Time     Rate\nbytes  Bytes  bytes    bytes   secs.    per sec\n\n16384  131072 1        1       4.00     12345.67   \n16384  131072\n";
    assert_eq!(rr_rate_texts(out), vec!["0", "Trans.", "Rate", "sec", "12345.67"]);
    assert!(rr_rate_texts("").is_empty());
}
