//! What a telemetry install sets up: which signals export where, the service
//! identity and the console and export levels. The caller builds the
//! exporters and installs the subscriber from this plan.

use crate::otel::config::{effective_of, endpoint_ok, parse_endpoint, OTelConfig, OTelSignalConfig, ParseError};
use crate::controller::worker::opt_string_view;
use crate::text::{ascii_lower, ascii_lower_text, str_eq};
use vstd::prelude::*;
use vstd::string::StrSliceExecFns;

verus! {

/// Log verbosity levels, most verbose first.
#[derive(Debug, Clone, Copy, PartialEq, Eq, Structural)]
pub enum Level {
    Trace,
    Debug,
    Info,
    Warn,
    Error,
}

/// The level a name selects (case-insensitive); anything unknown is info.
pub open spec fn level_of(name: Seq<char>) -> Level {
    let l = ascii_lower(name);
    if l == "trace"@ {
        Level::Trace
    } else if l == "debug"@ {
        Level::Debug
    } else if l == "warn"@ {
        Level::Warn
    } else if l == "error"@ {
        Level::Error
    } else {
        Level::Info
    }
}

pub fn parse_level(level: &str) -> (r: Level)
    ensures
        r == level_of(level@),
{
    let l = ascii_lower_text(level);
    if str_eq(l.as_str(), "trace") {
        Level::Trace
    } else if str_eq(l.as_str(), "debug") {
        Level::Debug
    } else if str_eq(l.as_str(), "warn") {
        Level::Warn
    } else if str_eq(l.as_str(), "error") {
        Level::Error
    } else {
        Level::Info
    }
}

/// Index of the first `://` in `s`, if any.
pub open spec fn scheme_sep(s: Seq<char>) -> Option<int>
    decreases s.len(),
{
    if s.len() < 3 {
        None
    } else if s[0] == ':' && s[1] == '/' && s[2] == '/' {
        Some(0)
    } else {
        match scheme_sep(s.drop_first()) {
            Some(i) => Some(i + 1),
            None => None,
        }
    }
}

/// `s` without trailing slashes.
pub open spec fn trim_slashes_end(s: Seq<char>) -> Seq<char>
    decreases s.len(),
{
    if s.len() > 0 && s.last() == '/' {
        trim_slashes_end(s.drop_last())
    } else {
        s
    }
}

/// Whether the endpoint already carries a path: something after `://`
/// contains a `/` (an endpoint without `://` counts as having one).
pub open spec fn has_path(ep: Seq<char>) -> bool {
    match scheme_sep(ep) {
        Some(i) => ep.subrange(i + 3, ep.len() as int).contains('/'),
        None => true,
    }
}

/// The export URL of a signal: the endpoint as given when it carries a path,
/// else the endpoint with the signal's OTLP path appended.
pub open spec fn signal_url(ep: Seq<char>, path: Seq<char>) -> Seq<char> {
    if has_path(ep) {
        trim_slashes_end(ep)
    } else {
        trim_slashes_end(ep) + path
    }
}

proof fn lemma_scheme_sep_bounds(s: Seq<char>)
    ensures
        scheme_sep(s) matches Some(i) ==> 0 <= i && i + 3 <= s.len() && s[i] == ':' && s[i + 1] == '/' && s[i + 2] == '/',
        scheme_sep(s) is None ==> forall|j: int| 0 <= j && j + 3 <= s.len() ==> !(#[trigger] s[j] == ':' && s[j + 1] == '/' && s[j + 2] == '/'),
    decreases s.len(),
{
    if s.len() >= 3 && !(s[0] == ':' && s[1] == '/' && s[2] == '/') {
        lemma_scheme_sep_bounds(s.drop_first());
        if scheme_sep(s) is None {
            assert forall|j: int| 0 <= j && j + 3 <= s.len() implies !(#[trigger] s[j] == ':' && s[j + 1] == '/' && s[j + 2] == '/') by {
                if j > 0 {
                    assert(s.drop_first()[j - 1] == s[j]);
                }
            }
        }
    }
}

fn find_scheme_sep(s: &str) -> (r: Option<usize>)
    ensures
        r matches Some(i) ==> scheme_sep(s@) == Some(i as int),
        r is None ==> scheme_sep(s@) is None,
{
    let n = s.unicode_len();
    let mut i: usize = 0;
    proof {
        assert(s@.skip(0) =~= s@);
    }
    while n >= 3 && i <= n - 3
        invariant
            n == s@.len(),
            i <= n,
            forall|j: int| 0 <= j < i ==> !(#[trigger] s@[j] == ':' && s@[j + 1] == '/' && s@[j + 2] == '/'),
            scheme_sep(s@) == (match scheme_sep(s@.skip(i as int)) {
                Some(k) => Some(k + i),
                None => None::<int>,
            }),
        decreases n - i,
    {
        proof {
            assert(s@.skip(i as int)[0] == s@[i as int]);
            assert(s@.skip(i as int)[1] == s@[i + 1]);
            assert(s@.skip(i as int)[2] == s@[i + 2]);
            assert(s@.skip(i as int).drop_first() =~= s@.skip(i + 1));
        }
        if s.get_char(i) == ':' && s.get_char(i + 1) == '/' && s.get_char(i + 2) == '/' {
            return Some(i);
        }
        i = i + 1;
    }
    proof {
        assert(s@.skip(i as int).len() < 3);
    }
    None
}

fn trim_end_slashes(s: &str) -> (r: String)
    ensures
        r@ == trim_slashes_end(s@),
{
    let n = s.unicode_len();
    let mut j: usize = n;
    proof {
        assert(s@.subrange(0, n as int) =~= s@);
    }
    while j > 0 && s.get_char(j - 1) == '/'
        invariant
            n == s@.len(),
            j <= n,
            trim_slashes_end(s@) == trim_slashes_end(s@.subrange(0, j as int)),
        decreases j,
    {
        proof {
            assert(s@.subrange(0, j as int).drop_last() =~= s@.subrange(0, j - 1));
        }
        j = j - 1;
    }
    proof {
        if j > 0 {
            assert(s@.subrange(0, j as int).last() == s@[j - 1]);
        }
    }
    s.substring_char(0, j).to_string()
}

/// Append the OTLP signal path when the configured endpoint carries no path.
pub fn signal_endpoint(endpoint: &str, path: &str) -> (r: String)
    ensures
        r@ == signal_url(endpoint@, path@),
{
    let n = endpoint.unicode_len();
    proof {
        lemma_scheme_sep_bounds(endpoint@);
    }
    let with_path = match find_scheme_sep(endpoint) {
        Some(i) => {
            let mut k = i + 3;
            let mut found = false;
            proof {
                assert(endpoint@.subrange(i + 3, k as int).len() == 0);
            }
            while k < n
                invariant
                    n == endpoint@.len(),
                    i + 3 <= k <= n,
                    found == endpoint@.subrange(i + 3, k as int).contains('/'),
                decreases n - k,
            {
                let c = endpoint.get_char(k);
                proof {
                    let a = endpoint@.subrange(i + 3, k as int);
                    let b = endpoint@.subrange(i + 3, k + 1);
                    assert(b =~= a.push(c));
                    if b.contains('/') {
                        let t = choose|t: int| 0 <= t < b.len() && b[t] == '/';
                        if t < a.len() {
                            assert(a[t] == '/');
                        }
                    }
                    if a.contains('/') {
                        let t = choose|t: int| 0 <= t < a.len() && a[t] == '/';
                        assert(b[t] == '/');
                    }
                    if c == '/' {
                        assert(b[a.len() as int] == '/');
                    }
                }
                if c == '/' {
                    found = true;
                }
                k = k + 1;
            }
            found
        },
        None => true,
    };
    let mut out = trim_end_slashes(endpoint);
    if !with_path {
        out.append(path);
    }
    out
}

/// A signal's export URL: its effective endpoint (a non-empty override,
/// else global) with the signal path added; none when that endpoint is
/// empty; an error when its scheme is not http(s).
pub open spec fn sig_url(sig_ep: Option<Seq<char>>, global: Seq<char>, path: Seq<char>) -> Result<Option<Seq<char>>, Seq<char>> {
    let ep = effective_of(sig_ep, global);
    if ep.len() == 0 {
        Ok(None)
    } else if !endpoint_ok(ep) {
        Err(ep)
    } else {
        Ok(Some(signal_url(ep, path)))
    }
}

/// Resolve and validate a signal's effective endpoint.
pub fn sig_endpoint(sig: &OTelSignalConfig, global: &str, path: &str) -> (r: Result<Option<String>, ParseError>)
    ensures
        match r {
            Ok(o) => sig_url(opt_string_view(sig.endpoint), global@, path@) == Ok::<Option<Seq<char>>, Seq<char>>(opt_string_view(o)),
            Err(ParseError::UnsupportedScheme(e)) => sig_url(opt_string_view(sig.endpoint), global@, path@) == Err::<Option<Seq<char>>, Seq<char>>(e@),
        },
{
    let ep = sig.effective_endpoint(global);
    if ep.as_str().is_empty() {
        return Ok(None);
    }
    match parse_endpoint(ep.as_str()) {
        Ok(_) => Ok(Some(signal_endpoint(ep.as_str(), path))),
        Err(e) => Err(e),
    }
}

/// What the install sets up.
#[derive(Debug)]
pub struct TelemetryPlan {
    /// The master switch.
    pub global_on: bool,
    /// Export URLs of the signals that are on.
    pub traces: Option<String>,
    pub metrics: Option<String>,
    pub logs: Option<String>,
    /// Effective `service.name`: the configured one, else the caller's.
    pub service_name: String,
    /// Console level (configured, default info).
    pub console_level: Level,
    /// Level of what goes to the collector (configured, else the console's).
    pub otel_level: Level,
}

/// A signal is on when the master switch and the signal's own switch
/// (default on) are, and it has an export URL.
pub open spec fn signal_on(global_on: bool, sig: OTelSignalConfig, url: Option<Seq<char>>) -> Option<Seq<char>> {
    if global_on && (match sig.enabled {
        Some(b) => b,
        None => true,
    }) {
        url
    } else {
        None
    }
}

fn gate(global_on: bool, sig: &OTelSignalConfig, url: Option<String>) -> (r: Option<String>)
    ensures
        opt_string_view(r) == signal_on(global_on, *sig, opt_string_view(url)),
{
    if global_on && sig.is_enabled(true) {
        url
    } else {
        None
    }
}

/// Build the telemetry plan: per-signal URLs (traces, then metrics, then
/// logs; the first bad scheme fails the install), the service identity and
/// the levels.
pub fn plan_install(cfg: &OTelConfig, service_name: &str) -> (r: Result<TelemetryPlan, ParseError>)
    ensures
        ({
            let t = sig_url(opt_string_view(cfg.traces.endpoint), cfg.endpoint@, "/v1/traces"@);
            let m = sig_url(opt_string_view(cfg.metrics.endpoint), cfg.endpoint@, "/v1/metrics"@);
            let l = sig_url(opt_string_view(cfg.logs.endpoint), cfg.endpoint@, "/v1/logs"@);
            let on = match cfg.enabled { Some(b) => b, None => true };
            let console = match cfg.log_level { Some(s) => s@, None => "info"@ };
            match r {
                Ok(p) => t is Ok && m is Ok && l is Ok
                    && p.global_on == on
                    && opt_string_view(p.traces) == signal_on(on, cfg.traces, t->Ok_0)
                    && opt_string_view(p.metrics) == signal_on(on, cfg.metrics, m->Ok_0)
                    && opt_string_view(p.logs) == signal_on(on, cfg.logs, l->Ok_0)
                    && p.service_name@ == (match cfg.service_name { Some(s) => s@, None => service_name@ })
                    && p.console_level == level_of(console)
                    && p.otel_level == level_of(match cfg.level { Some(s) => s@, None => console }),
                Err(ParseError::UnsupportedScheme(e)) =>
                    t == Err::<Option<Seq<char>>, Seq<char>>(e@)
                    || (t is Ok && m == Err::<Option<Seq<char>>, Seq<char>>(e@))
                    || (t is Ok && m is Ok && l == Err::<Option<Seq<char>>, Seq<char>>(e@)),
            }
        }),
{
    let global_on = match cfg.enabled {
        Some(b) => b,
        None => true,
    };
    let trace_ep = match sig_endpoint(&cfg.traces, cfg.endpoint.as_str(), "/v1/traces") {
        Ok(o) => o,
        Err(e) => return Err(e),
    };
    let metric_ep = match sig_endpoint(&cfg.metrics, cfg.endpoint.as_str(), "/v1/metrics") {
        Ok(o) => o,
        Err(e) => return Err(e),
    };
    let log_ep = match sig_endpoint(&cfg.logs, cfg.endpoint.as_str(), "/v1/logs") {
        Ok(o) => o,
        Err(e) => return Err(e),
    };
    let name = match &cfg.service_name {
        Some(s) => s.clone(),
        None => String::from_str(service_name),
    };
    let console = match &cfg.log_level {
        Some(s) => s.clone(),
        None => String::from_str("info"),
    };
    let otel = match &cfg.level {
        Some(s) => s.clone(),
        None => console.clone(),
    };
    Ok(TelemetryPlan {
        global_on,
        traces: gate(global_on, &cfg.traces, trace_ep),
        metrics: gate(global_on, &cfg.metrics, metric_ep),
        logs: gate(global_on, &cfg.logs, log_ep),
        service_name: name,
        console_level: parse_level(console.as_str()),
        otel_level: parse_level(otel.as_str()),
    })
}

impl TelemetryPlan {
    /// OTEL is switched on but no signal has an endpoint.
    pub fn nothing_exported(&self) -> (r: bool)
        ensures
            r == (self.global_on && self.traces is None && self.metrics is None && self.logs is None),
    {
        self.global_on && self.traces.is_none() && self.metrics.is_none() && self.logs.is_none()
    }
}

} // verus!
