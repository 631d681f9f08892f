//! The controller: the mesh's decision-maker.

pub mod api;
pub mod assets;
pub mod cert;
pub mod classifier;
pub mod config;
pub mod fence;
pub mod gossip;
pub mod kv;
pub mod map;
pub mod model;
pub mod quality;
pub mod rollup;
pub mod scheduler;
pub mod state;
pub mod trace;
pub mod tsdb;
pub mod worker;
