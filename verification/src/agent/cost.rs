//! OSPF cost application. The agent only ever applies the cost it is told to
//! apply (from an `apply_cost` command). If the link has no `cost_command`,
//! the default is to drive BIRD directly via `birdc`.

use crate::agent::config::LinkConfig;
use crate::controller::worker::opt_string_view;
use crate::text::{decimal, decimal_text, replace_all, replace_text};
use vstd::prelude::*;

verus! {

/// How a cost is applied.
#[derive(Debug)]
pub enum CostAction {
    /// Run this script with `/bin/sh -c`; a failure is an error.
    Shell(String),
    /// Run `birdc configure` with this stanza; failures are tolerated (no
    /// BIRD on the host).
    Birdc(String),
}

/// The script of a cost command template: `{interface}`, then `{cost}`,
/// substituted.
pub open spec fn script_of(tmpl: Seq<char>, iface: Seq<char>, cost: u32) -> Seq<char> {
    replace_all(replace_all(tmpl, "{interface}"@, iface), "{cost}"@, decimal(cost as nat))
}

/// The per-interface OSPF cost stanza handed to `birdc configure`.
pub open spec fn birdc_stanza(iface: Seq<char>, cost: u32) -> Seq<char> {
    "protocol ospf mesh { interface \""@ + iface + "\" { cost "@ + decimal(cost as nat) + "; }; }"@
}

/// What applying `cost` to link `l` runs.
pub fn apply_cost(l: &LinkConfig, cost: u32) -> (r: CostAction)
    ensures
        match opt_string_view(l.cost_command) {
            Some(t) => r matches CostAction::Shell(s) && s@ == script_of(t, l.interface@, cost),
            None => r matches CostAction::Birdc(s) && s@ == birdc_stanza(l.interface@, cost),
        },
{
    proof {
        reveal_strlit("{interface}");
        reveal_strlit("{cost}");
    }
    let c = decimal_text(cost as u64);
    match &l.cost_command {
        Some(tmpl) => {
            let s1 = replace_text(tmpl.as_str(), "{interface}", l.interface.as_str());
            let s2 = replace_text(s1.as_str(), "{cost}", c.as_str());
            CostAction::Shell(s2)
        },
        None => {
            let mut s = String::from_str("protocol ospf mesh { interface \"");
            s.append(l.interface.as_str());
            s.append("\" { cost ");
            s.append(c.as_str());
            s.append("; }; }");
            CostAction::Birdc(s)
        },
    }
}

} // verus!
