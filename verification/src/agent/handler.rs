//! What the agent does with one controller command.

use crate::agent::config::{first_with_interface, Config};
use crate::agent::model::WorkCmd;
use crate::text::str_eq;
use vstd::prelude::*;

verus! {

/// The work one command asks for. Links are referred to by their index in
/// the configuration.
#[derive(Debug)]
pub enum AgentAction {
    /// Run the always-on probe on the link and report it.
    RunAlways { link: usize },
    /// Run the gated throughput probe on the link and report it.
    RunThroughput { link: usize },
    /// Apply the OSPF cost on the link, then acknowledge it.
    ApplyCost { link: usize, cost: u32 },
    /// A probe of a tier the agent does not know; skipped with a warning.
    UnknownTier(String),
    /// A probe of a link that is not configured here; fails the command.
    UnknownProbeLink(String),
    /// A cost for a link that is not configured here; skipped with a warning.
    UnknownCostLink(String),
}

/// The action for a command.
pub open spec fn action_ok<P>(cfg: Config<P>, cmd: WorkCmd, a: AgentAction) -> bool {
    match cmd {
        WorkCmd::Probe { tier, link, .. } => {
            if tier@ == "always"@ || tier@ == "throughput"@ {
                match first_with_interface(cfg.links@, link.interface@) {
                    Some(i) => if tier@ == "always"@ {
                        a matches AgentAction::RunAlways { link: l } && l == i
                    } else {
                        a matches AgentAction::RunThroughput { link: l } && l == i
                    },
                    None => a matches AgentAction::UnknownProbeLink(s) && s@ == link.interface@,
                }
            } else {
                a matches AgentAction::UnknownTier(s) && s@ == tier@
            }
        },
        WorkCmd::ApplyCost { link, cost, .. } => match first_with_interface(cfg.links@, link.interface@) {
            Some(i) => a matches AgentAction::ApplyCost { link: l, cost: c } && l == i && c == cost,
            None => a matches AgentAction::UnknownCostLink(s) && s@ == link.interface@,
        },
    }
}

fn link_index<P>(cfg: &Config<P>, iface: &str) -> (r: Option<usize>)
    ensures
        match first_with_interface(cfg.links@, iface@) {
            Some(i) => r is Some && r.unwrap() as int == i,
            None => r is None,
        },
{
    let mut i: usize = 0;
    proof {
        assert(cfg.links@.skip(0) =~= cfg.links@);
    }
    while i < cfg.links.len()
        invariant
            i <= cfg.links@.len(),
            first_with_interface(cfg.links@, iface@) == (match first_with_interface(cfg.links@.skip(i as int), iface@) {
                Some(k) => Some(k + i),
                None => None::<int>,
            }),
        decreases cfg.links@.len() - i,
    {
        proof {
            assert(cfg.links@.skip(i as int)[0] == cfg.links@[i as int]);
            assert(cfg.links@.skip(i as int).drop_first() =~= cfg.links@.skip(i + 1));
        }
        if str_eq(cfg.links[i].interface.as_str(), iface) {
            return Some(i);
        }
        i = i + 1;
    }
    None
}

/// Decide what a command asks of this agent.
pub fn plan_command<P>(cfg: &Config<P>, cmd: &WorkCmd) -> (r: AgentAction)
    ensures
        action_ok(*cfg, *cmd, r),
{
    match cmd {
        WorkCmd::Probe { tier, link, .. } => {
            let always = str_eq(tier.as_str(), "always");
            let throughput = str_eq(tier.as_str(), "throughput");
            if !always && !throughput {
                return AgentAction::UnknownTier(tier.clone());
            }
            match link_index(cfg, link.interface.as_str()) {
                Some(i) => if always {
                    AgentAction::RunAlways { link: i }
                } else {
                    AgentAction::RunThroughput { link: i }
                },
                None => AgentAction::UnknownProbeLink(link.interface.clone()),
            }
        },
        WorkCmd::ApplyCost { link, cost, .. } => match link_index(cfg, link.interface.as_str()) {
            Some(i) => AgentAction::ApplyCost { link: i, cost: *cost },
            None => AgentAction::UnknownCostLink(link.interface.clone()),
        },
    }
}

} // verus!
