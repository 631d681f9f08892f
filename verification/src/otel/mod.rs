//! Shared OpenTelemetry (OTLP/HTTP, gRPC-free) configuration for the daemons:
//! a single collector endpoint, three independently-enablable signals
//! (traces, metrics, logs) with optional per-signal overrides, and the console
//! log format.

pub mod config;
pub mod format;
pub mod setup;
