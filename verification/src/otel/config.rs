//! OTEL configuration model, with an HTTP(S)-only transport (no `grpc://`).

use vstd::prelude::*;
use vstd::string::StrSliceExecFns;

verus! {

/// Transport protocol resolved from the endpoint scheme.
#[derive(Debug, Clone, Copy, PartialEq, Eq, Structural)]
pub enum Protocol {
    Http,
}

/// Error returned when parsing an OTEL endpoint.
#[derive(Debug)]
pub enum ParseError {
    /// The endpoint, whose scheme is neither `http://` nor `https://`.
    UnsupportedScheme(String),
}

/// Per-signal configuration: an endpoint override and an enabled override.
#[derive(Debug, Clone)]
pub struct OTelSignalConfig {
    /// Per-signal endpoint URL (http/https). Unset or empty = inherit global.
    pub endpoint: Option<String>,
    /// Override the global enabled flag for this signal.
    pub enabled: Option<bool>,
}

impl Default for OTelSignalConfig {
    fn default() -> (r: Self)
        ensures
            r.endpoint is None,
            r.enabled is None,
    {
        OTelSignalConfig { endpoint: None, enabled: None }
    }
}

/// A signal's endpoint: its override when set and non-empty, else the global
/// one.
pub open spec fn effective_of(sig_ep: Option<Seq<char>>, global: Seq<char>) -> Seq<char> {
    match sig_ep {
        Some(e) => if e.len() > 0 {
            e
        } else {
            global
        },
        None => global,
    }
}

impl OTelSignalConfig {
    /// Resolved endpoint: the signal's override when set and non-empty, else
    /// the global one.
    pub fn effective_endpoint(&self, global: &str) -> (r: String)
        ensures
            r@ == effective_of(crate::controller::worker::opt_string_view(self.endpoint), global@),
    {
        match &self.endpoint {
            Some(e) => {
                if e.as_str().is_empty() {
                    String::from_str(global)
                } else {
                    e.clone()
                }
            },
            None => String::from_str(global),
        }
    }

    /// Whether this signal is on, honouring the global enabled default.
    pub fn is_enabled(&self, global_enabled: bool) -> (r: bool)
        ensures
            r == (match self.enabled {
                Some(b) => b,
                None => global_enabled,
            }),
    {
        match self.enabled {
            Some(b) => b,
            None => global_enabled,
        }
    }
}

/// Top-level OpenTelemetry configuration.
#[derive(Debug, Clone)]
pub struct OTelConfig {
    /// Master switch. Defaults to true; export off when endpoint is empty.
    pub enabled: Option<bool>,
    /// OTLP collector endpoint (http:// or https://). Empty disables OTEL.
    pub endpoint: String,
    /// Resource `service.name`; the caller's name is the fallback.
    pub service_name: Option<String>,
    /// Minimum level forwarded to OTEL. Independent of the console level.
    pub level: Option<String>,
    /// Console level (default info).
    pub log_level: Option<String>,
    /// Per-signal overrides.
    pub traces: OTelSignalConfig,
    pub metrics: OTelSignalConfig,
    pub logs: OTelSignalConfig,
}

impl Default for OTelConfig {
    fn default() -> (r: Self)
        ensures
            r.enabled is None,
            r.endpoint@.len() == 0,
            r.service_name is None,
            r.level is None,
            r.log_level is None,
            r.traces.endpoint is None && r.traces.enabled is None,
            r.metrics.endpoint is None && r.metrics.enabled is None,
            r.logs.endpoint is None && r.logs.enabled is None,
    {
        OTelConfig {
            enabled: None,
            endpoint: String::new(),
            service_name: None,
            level: None,
            log_level: None,
            traces: OTelSignalConfig::default(),
            metrics: OTelSignalConfig::default(),
            logs: OTelSignalConfig::default(),
        }
    }
}

impl OTelConfig {
    /// Effective enabled state: on unless switched off, and only with an
    /// endpoint.
    pub fn is_enabled(&self) -> (r: bool)
        ensures
            r == ((match self.enabled {
                Some(b) => b,
                None => true,
            }) && self.endpoint@.len() > 0),
    {
        let on = match self.enabled {
            Some(b) => b,
            None => true,
        };
        on && !self.endpoint.as_str().is_empty()
    }
}

/// Whether `s` starts with `prefix`.
pub open spec fn starts_with(s: Seq<char>, prefix: Seq<char>) -> bool {
    s.len() >= prefix.len() && s.subrange(0, prefix.len() as int) == prefix
}

pub fn str_starts_with(s: &str, prefix: &str) -> (r: bool)
    ensures
        r == starts_with(s@, prefix@),
{
    let n = s.unicode_len();
    let m = prefix.unicode_len();
    if n < m {
        return false;
    }
    let head = s.substring_char(0, m);
    crate::text::str_eq(head, prefix)
}

/// The transport of an endpoint: HTTP for `http://` and `https://`, anything
/// else (gRPC included) is refused.
pub open spec fn endpoint_ok(raw: Seq<char>) -> bool {
    starts_with(raw, "http://"@) || starts_with(raw, "https://"@)
}

/// Resolve the transport from an endpoint URL. Only HTTP(S) is supported.
pub fn parse_endpoint(raw: &str) -> (r: Result<Protocol, ParseError>)
    ensures
        r is Ok <==> endpoint_ok(raw@),
        r matches Err(ParseError::UnsupportedScheme(s)) ==> s@ == raw@,
{
    if str_starts_with(raw, "grpc://") || str_starts_with(raw, "grpcs://") {
        proof {
            reveal_strlit("grpc://");
            reveal_strlit("grpcs://");
            reveal_strlit("http://");
            reveal_strlit("https://");
            if starts_with(raw@, "grpc://"@) {
                assert(raw@.subrange(0, 7)[0] == raw@[0]);
            } else {
                assert(raw@.subrange(0, 8)[0] == raw@[0]);
            }
            assert(raw@[0] == 'g');
            if starts_with(raw@, "http://"@) {
                assert(raw@.subrange(0, 7)[0] == raw@[0]);
            }
            if starts_with(raw@, "https://"@) {
                assert(raw@.subrange(0, 8)[0] == raw@[0]);
            }
        }
        return Err(ParseError::UnsupportedScheme(String::from_str(raw)));
    }
    if str_starts_with(raw, "http://") || str_starts_with(raw, "https://") {
        return Ok(Protocol::Http);
    }
    Err(ParseError::UnsupportedScheme(String::from_str(raw)))
}

} // verus!
