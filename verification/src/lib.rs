//! Verified core of the mielofon link-quality coordination layer.

pub mod agent;
pub mod assoc;
pub mod clock;
pub mod text;
pub mod controller;
pub mod otel;
