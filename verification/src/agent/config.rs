//! Agent configuration. All values are device-local.

use crate::agent::model::LinkKey;
use crate::otel::config::OTelConfig;
use vstd::prelude::*;

verus! {

/// One managed outgoing link. The probe target/source are device-local
/// addresses; the controller only ever references the link by its key.
#[derive(Debug, Clone)]
pub struct LinkConfig {
    pub from: String,
    pub to: String,
    pub interface: String,
    /// Probe destination (the peer's loopback reachable only via this link).
    pub target: String,
    /// Optional source address to bind probes to this specific interface.
    pub source: Option<String>,
    /// Optional shell command applied on apply_cost. `{interface}` and
    /// `{cost}` placeholders are substituted.
    pub cost_command: Option<String>,
}

/// Poll loop settings.
#[derive(Debug, Clone, Copy)]
pub struct Loop {
    pub poll_secs: u64,
}

impl Default for Loop {
    fn default() -> (r: Self)
        ensures
            r.poll_secs == 2,
    {
        Loop { poll_secs: 2 }
    }
}

/// TLS material of the agent.
#[derive(Debug, Clone)]
pub struct TlsConfig {
    pub ca: String,
    pub cert: String,
    pub key: String,
}

impl Default for TlsConfig {
    fn default() -> (r: Self)
        ensures
            r.ca@ == "/etc/mielofon/ca.pem"@,
            r.cert@ == "/etc/mielofon/agent.pem"@,
            r.key@ == "/etc/mielofon/agent.key"@,
    {
        TlsConfig {
            ca: String::from_str("/etc/mielofon/ca.pem"),
            cert: String::from_str("/etc/mielofon/agent.pem"),
            key: String::from_str("/etc/mielofon/agent.key"),
        }
    }
}

/// Top-level agent configuration; `P` holds the probe tuning.
#[derive(Debug, Clone)]
pub struct Config<P> {
    pub agent: String,
    /// Controller clients listener address (mTLS).
    pub controller: String,
    pub controller_port: u16,
    pub tls: TlsConfig,
    pub links: Vec<LinkConfig>,
    pub loop_: Loop,
    pub probes: P,
    pub otel: OTelConfig,
}

/// Index of the first link whose interface is `iface`.
pub open spec fn first_with_interface(links: Seq<LinkConfig>, iface: Seq<char>) -> Option<int>
    decreases links.len(),
{
    if links.len() == 0 {
        None
    } else if links[0].interface@ == iface {
        Some(0)
    } else {
        match first_with_interface(links.drop_first(), iface) {
            Some(i) => Some(i + 1),
            None => None,
        }
    }
}

/// The key the controller knows a configured link by.
pub open spec fn key_of(l: LinkConfig) -> (Seq<char>, Seq<char>, Seq<char>) {
    (l.from@, l.to@, l.interface@)
}

impl<P> Config<P> {
    /// Link config by interface (probe commands carry only the link key).
    pub fn link_by_interface(&self, interface: &str) -> (r: Option<&LinkConfig>)
        ensures
            match first_with_interface(self.links@, interface@) {
                Some(i) => r == Some(&self.links@[i]),
                None => r is None,
            },
    {
        let mut i: usize = 0;
        proof {
            assert(self.links@.skip(0) =~= self.links@);
        }
        while i < self.links.len()
            invariant
                i <= self.links@.len(),
                first_with_interface(self.links@, interface@) == (match first_with_interface(self.links@.skip(i as int), interface@) {
                    Some(k) => Some(k + i),
                    None => None::<int>,
                }),
            decreases self.links@.len() - i,
        {
            proof {
                assert(self.links@.skip(i as int)[0] == self.links@[i as int]);
                assert(self.links@.skip(i as int).drop_first() =~= self.links@.skip(i + 1));
            }
            if crate::text::str_eq(self.links[i].interface.as_str(), interface) {
                return Some(&self.links[i]);
            }
            i = i + 1;
        }
        None
    }

    /// The keys of the managed links, in configuration order.
    pub fn link_keys(&self) -> (r: Vec<LinkKey>)
        ensures
            r@.map_values(|k: LinkKey| k@) == self.links@.map_values(|l: LinkConfig| key_of(l)),
    {
        let mut out: Vec<LinkKey> = Vec::new();
        let mut i: usize = 0;
        while i < self.links.len()
            invariant
                i <= self.links@.len(),
                out@.map_values(|k: LinkKey| k@) == self.links@.take(i as int).map_values(|l: LinkConfig| key_of(l)),
            decreases self.links@.len() - i,
        {
            let l = &self.links[i];
            let ghost prev = out@;
            out.push(LinkKey { from: l.from.clone(), to: l.to.clone(), interface: l.interface.clone() });
            proof {
                assert(out@ == prev.push(out@.last()));
                assert(self.links@.take(i + 1) =~= self.links@.take(i as int).push(*l));
                assert(out@.last()@ == key_of(*l));
                assert(out@.map_values(|k: LinkKey| k@) =~= prev.map_values(|k: LinkKey| k@).push(key_of(*l)));
                assert(self.links@.take(i + 1).map_values(|l: LinkConfig| key_of(l)) =~= self.links@.take(i as int).map_values(
                    |l: LinkConfig| key_of(l),
                ).push(key_of(*l)));
                assert(out@.map_values(|k: LinkKey| k@) =~= self.links@.take(i + 1).map_values(|l: LinkConfig| key_of(l)));
            }
            i = i + 1;
        }
        proof {
            assert(self.links@.take(self.links@.len() as int) =~= self.links@);
        }
        out
    }
}

} // verus!
