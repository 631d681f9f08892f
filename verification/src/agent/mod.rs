//! The agent: a thin executor. It registers its managed links with the
//! controller, polls the work queue, runs whatever probe it is told to run,
//! reports raw measurements, and applies the OSPF cost it is told to apply.
//! It holds no scheduling, policy, or classification logic; what is here is
//! how it reads its configuration and commands.

pub mod client;
pub mod config;
pub mod cost;
pub mod handler;
pub mod model;
pub mod probes;
