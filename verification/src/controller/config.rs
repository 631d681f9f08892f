//! Controller configuration sections with plain-valued fields, and their
//! defaults (sanitized placeholders only).

use vstd::prelude::*;

verus! {

/// TLS material paths (server+client cert per node, CA to pin).
#[derive(Debug, Clone)]
pub struct Tls {
    pub ca: String,
    pub cert: String,
    pub key: String,
}

impl Default for Tls {
    fn default() -> (r: Self)
        ensures
            r.ca@ == "/etc/mielofon/ca.pem"@,
            r.cert@ == "/etc/mielofon/node.pem"@,
            r.key@ == "/etc/mielofon/node.key"@,
    {
        Tls {
            ca: String::from_str("/etc/mielofon/ca.pem"),
            cert: String::from_str("/etc/mielofon/node.pem"),
            key: String::from_str("/etc/mielofon/node.key"),
        }
    }
}

/// Cluster-level configuration.
#[derive(Debug, Clone, Copy)]
pub struct Cluster {
    /// Age after which a replicated record expires.
    pub grace_ttl_secs: u64,
    /// Interval between gossip anti-entropy pushes to peers.
    pub gossip_interval_secs: u64,
}

impl Default for Cluster {
    fn default() -> (r: Self)
        ensures
            r.grace_ttl_secs == 300,
            r.gossip_interval_secs == 5,
    {
        Cluster { grace_ttl_secs: 300, gossip_interval_secs: 5 }
    }
}

/// Console/logging configuration: minimum console level and output format.
#[derive(Debug, Clone)]
pub struct Log {
    /// Minimum console level: trace, debug, info, warn, error.
    pub level: String,
    /// Console log format: `logfmt` or `json`.
    pub format: String,
}

impl Default for Log {
    fn default() -> (r: Self)
        ensures
            r.level@ == "info"@,
            r.format@ == "logfmt"@,
    {
        Log { level: String::from_str("info"), format: String::from_str("logfmt") }
    }
}

/// Frontend (dashboard) configuration: the directory of the built SPA.
#[derive(Debug, Clone)]
pub struct Frontend {
    pub root_dir: String,
}

impl Default for Frontend {
    fn default() -> (r: Self)
        ensures
            r.root_dir@ == "/usr/share/mielofon/dashboard"@,
    {
        Frontend { root_dir: String::from_str("/usr/share/mielofon/dashboard") }
    }
}

/// Policy classifier configuration.
#[derive(Debug, Clone, Copy)]
pub struct Classifier {
    /// How often (seconds) the classifier recomputes per-link policy.
    pub interval_secs: u64,
    /// Freshness window (seconds) for the always-tier dimensions.
    pub always_fresh_secs: u64,
    /// Freshness window (seconds) for the gated throughput dimension.
    pub tcp_fresh_secs: u64,
    /// Hard horizon (seconds) past which a last-known value is no longer carried.
    pub tcp_carry_secs: u64,
    /// How long (seconds) a busy/conflict link keeps its last derived cost.
    pub busy_hold_secs: u64,
    /// Consecutive passes a new class must be seen before it is applied.
    pub hysteresis_passes: u32,
}

impl Default for Classifier {
    fn default() -> (r: Self)
        ensures
            r.interval_secs == 5,
            r.always_fresh_secs == 60,
            r.tcp_fresh_secs == 1200,
            r.tcp_carry_secs == 3600,
            r.busy_hold_secs == 120,
            r.hysteresis_passes == 3,
    {
        Classifier {
            interval_secs: 5,
            always_fresh_secs: 60,
            tcp_fresh_secs: 1200,
            tcp_carry_secs: 3600,
            busy_hold_secs: 120,
            hysteresis_passes: 3,
        }
    }
}

/// Time-series history configuration. An empty `path` keeps history in
/// memory only.
#[derive(Debug, Clone)]
pub struct TsConfig {
    pub path: String,
    pub raw_retention_secs: u64,
    pub agg_retention_secs: u64,
}

impl Default for TsConfig {
    fn default() -> (r: Self)
        ensures
            r.path@.len() == 0,
            r.raw_retention_secs == 7200,
            r.agg_retention_secs == 86400,
    {
        TsConfig { path: String::new(), raw_retention_secs: 7200, agg_retention_secs: 86400 }
    }
}

} // verus!
