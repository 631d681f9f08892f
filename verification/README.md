# mielofon

A distributed QoE coordination layer for an OSPF mesh over point-to-point
tunnels: a small cluster of controllers schedules link probes on the routers'
agents, classifies each link's quality from the reported measurements, derives
a per-link OSPF cost, and shares its view by gossip.

## Layout

- `src/` — the verified library (Verus). Every function carries a contract
  over a mathematical model of its types, and the promises the system makes
  across calls are proof functions named `law_*`.
  - `controller/` — the last-write-wins link store, the probe fence, the
    work registry and scheduler, quality classification, the time-series
    rings and minute rollups, gossip, path traces, the HTTP API's decisions,
    certificate plans and configuration defaults.
  - `agent/` — how the agent reads its configuration, the controller's
    commands, HTTP responses and probe output, and how it applies a cost.
  - `otel/` — telemetry configuration and the install plan.
  - `text.rs`, `assoc.rs`, `clock.rs` — text helpers, an association list
    with a map view, and the clock and identifier sources.
- `tests/` — tests of the library on concrete values.
- `app/` — the daemons around the library: listeners and handlers, TLS,
  redb persistence, OpenTelemetry providers, background loops, probe and
  `openssl` subprocesses, and the floating-point measurement handling.
