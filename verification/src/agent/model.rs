//! Shared value types (the controller's wire model, as the agent sees it).

use vstd::prelude::*;

verus! {

/// A directed link.
#[derive(Debug, PartialEq, Eq, Hash)]
pub struct LinkKey {
    pub from: String,
    pub to: String,
    pub interface: String,
}

impl View for LinkKey {
    type V = (Seq<char>, Seq<char>, Seq<char>);

    open spec fn view(&self) -> (Seq<char>, Seq<char>, Seq<char>) {
        (self.from@, self.to@, self.interface@)
    }
}

impl Clone for LinkKey {
    fn clone(&self) -> (r: Self)
        ensures
            r == *self,
    {
        LinkKey { from: self.from.clone(), to: self.to.clone(), interface: self.interface.clone() }
    }
}

impl LinkKey {
    /// `from/to/interface`.
    pub fn id(&self) -> (r: String)
        ensures
            r@ == self.from@ + "/"@ + self.to@ + "/"@ + self.interface@,
    {
        let mut s = self.from.clone();
        s.append("/");
        s.append(self.to.as_str());
        s.append("/");
        s.append(self.interface.as_str());
        s
    }
}

/// Probe state reported with a measurement.
#[derive(Debug, Clone, Copy, PartialEq, Eq, Structural)]
pub enum ProbeState {
    Quiet,
    Busy,
    Conflict,
}

/// Register request body.
#[derive(Debug)]
pub struct RegisterReq {
    pub agent: String,
    pub links: Vec<LinkKey>,
}

/// Work pull request body.
#[derive(Debug)]
pub struct WorkReq {
    pub agent: String,
}

/// Apply-ack request body.
#[derive(Debug)]
pub struct ApplyAck {
    pub agent: String,
    pub link: LinkKey,
    pub cost: u32,
}

/// A command returned by the controller.
#[derive(Debug)]
pub enum WorkCmd {
    Probe { id: String, tier: String, token: Option<String>, link: LinkKey },
    ApplyCost { id: String, link: LinkKey, cost: u32 },
}

/// Parsed wrapper for the work response.
#[derive(Debug)]
pub struct WorkResp {
    pub commands: Vec<WorkCmd>,
}

} // verus!
