use mielofon::otel::config::{parse_endpoint, OTelConfig, OTelSignalConfig, ParseError, Protocol};
use mielofon::otel::format::ConsoleFormat;
use mielofon::otel::setup::{parse_level, plan_install, sig_endpoint, signal_endpoint, Level};

#[test]
fn endpoint_schemes() {
    assert!(matches!(parse_endpoint("http://c:4318"), Ok(Protocol::Http)));
    assert!(matches!(parse_endpoint("https://c"), Ok(Protocol::Http)));
    assert!(matches!(parse_endpoint("grpc://c:4317"), Err(ParseError::UnsupportedScheme(s)) if s == "grpc://c:4317"));
    assert!(matches!(parse_endpoint("c:4318"), Err(ParseError::UnsupportedScheme(_))));
}

#[test]
fn signal_overrides() {
    let s = OTelSignalConfig { endpoint: Some("http://t".to_string()), enabled: Some(false) };
    assert_eq!(s.effective_endpoint("http://g"), "http://t");
    assert!(!s.is_enabled(true));
    let d = OTelSignalConfig::default();
    assert_eq!(d.effective_endpoint("http://g"), "http://g");
    assert!(d.is_enabled(true));
    // An empty override inherits the global endpoint.
    let e = OTelSignalConfig { endpoint: Some(String::new()), enabled: None };
    assert_eq!(e.effective_endpoint("http://g"), "http://g");
    assert_eq!(sig_endpoint(&e, "http://g:4318", "/v1/logs").unwrap().as_deref(), Some("http://g:4318/v1/logs"));
    assert_eq!(sig_endpoint(&e, "", "/v1/logs").unwrap(), None);
    let mut c = OTelConfig::default();
    assert!(!c.is_enabled());
    c.endpoint = "http://g".to_string();
    assert!(c.is_enabled());
    c.enabled = Some(false);
    assert!(!c.is_enabled());
}

#[test]
fn signal_paths() {
    assert_eq!(signal_endpoint("http://c:4318", "/v1/traces"), "http://c:4318/v1/traces");
    // A trailing slash counts as a path: only the slash is trimmed.
    assert_eq!(signal_endpoint("http://c:4318/", "/v1/logs"), "http://c:4318");
    assert_eq!(signal_endpoint("http://c:4318/otlp/v1/logs/", "/v1/logs"), "http://c:4318/otlp/v1/logs");
    assert_eq!(signal_endpoint("c:4318", "/v1/logs"), "c:4318");
    assert!(matches!(sig_endpoint(&OTelSignalConfig::default(), "", "/v1/logs"), Ok(None)));
}

#[test]
fn install_plan() {
    let mut c = OTelConfig::default();
    c.endpoint = "http://collector:4318".to_string();
    c.metrics.enabled = Some(false);
    c.level = Some("DEBUG".to_string());
    let p = plan_install(&c, "mielofon-controller").ok().unwrap();
    assert!(p.global_on);
    assert_eq!(p.traces.as_deref(), Some("http://collector:4318/v1/traces"));
    assert_eq!(p.metrics, None);
    assert_eq!(p.logs.as_deref(), Some("http://collector:4318/v1/logs"));
    assert_eq!(p.service_name, "mielofon-controller");
    assert_eq!(p.console_level, Level::Info);
    assert_eq!(p.otel_level, Level::Debug);
    assert!(!p.nothing_exported());
    c.logs.endpoint = Some("grpc://x".to_string());
    assert!(matches!(plan_install(&c, "x"), Err(ParseError::UnsupportedScheme(s)) if s == "grpc://x"));
    let off = plan_install(&OTelConfig::default(), "x").ok().unwrap();
    assert!(off.nothing_exported());
}

#[test]
fn levels_and_formats() {
    assert_eq!(parse_level("WARN"), Level::Warn);
    assert_eq!(parse_level("error"), Level::Error);
    assert_eq!(parse_level("trace"), Level::Trace);
    assert_eq!(parse_level("verbose"), Level::Info);
    assert!(matches!(ConsoleFormat::parse("  JSON\n"), Ok(ConsoleFormat::Json)));
    assert!(matches!(ConsoleFormat::parse("logfmt"), Ok(ConsoleFormat::Logfmt)));
    assert!(matches!(ConsoleFormat::parse(" Pretty "), Err(e) if e.0 == "pretty"));
    assert_eq!(ConsoleFormat::default(), ConsoleFormat::Logfmt);
    assert!(matches!("Json".parse::<ConsoleFormat>(), Ok(ConsoleFormat::Json)));
    assert!(matches!("yaml".parse::<ConsoleFormat>(), Err(e) if e.0 == "yaml"));
}
