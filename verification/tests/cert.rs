use mielofon::controller::cert::{run, CaArgs, CertCli, CertStep, SignArgs, DEFAULT_DAYS};

fn openssl(s: &CertStep) -> Vec<&str> {
    match s {
        CertStep::Openssl { args } => args.iter().map(|a| a.as_str()).collect(),
        other => panic!("not openssl: {other:?}"),
    }
}

#[test]
fn ca_generates_key_then_self_signs() {
    let steps = run(CertCli::Ca(CaArgs { name: "mielofon-ca".to_string(), key: None, crt: None, days: DEFAULT_DAYS }), "/tmp/x.csr", "/tmp/x.ext");
    assert_eq!(steps.len(), 4);
    assert_eq!(openssl(&steps[0]), ["genpkey", "-algorithm", "EC", "-pkeyopt", "ec_paramgen_curve:P-256", "-out", "ca.key"]);
    assert_eq!(
        openssl(&steps[1]),
        ["req", "-x509", "-new", "-key", "ca.key", "-sha256", "-days", "825", "-subj", "/CN=mielofon-ca", "-out", "ca.crt"]
    );
    assert!(matches!(&steps[3], CertStep::Report { line } if line == "wrote ca.crt"));
}

#[test]
fn node_leaf_carries_sans_and_server_usage() {
    let args = SignArgs {
        name: "hub-a".to_string(),
        ip: vec!["203.0.113.1".to_string()],
        host: vec!["hub-a".to_string()],
        ca_key: "ca.key".to_string(),
        ca_crt: "ca.crt".to_string(),
        key: None,
        crt: None,
        days: 30,
    };
    let steps = run(CertCli::Node(args), "/tmp/a.csr", "/tmp/a.ext");
    assert_eq!(steps.len(), 10);
    assert!(matches!(&steps[0], CertStep::RequireFile { path, missing } if path == "ca.key" && missing == "CA key not found: ca.key (run `cert ca` first)"));
    assert_eq!(openssl(&steps[2]).last(), Some(&"hub-a.key"));
    assert_eq!(openssl(&steps[3]), ["req", "-new", "-key", "hub-a.key", "-subj", "/CN=hub-a", "-out", "/tmp/a.csr"]);
    match &steps[4] {
        CertStep::WriteFile { path, contents } => {
            assert_eq!(path, "/tmp/a.ext");
            assert_eq!(
                contents,
                "keyUsage = digitalSignature\nextendedKeyUsage = serverAuth, clientAuth\nsubjectAltName = IP:203.0.113.1,DNS:hub-a\n"
            );
        },
        other => panic!("unexpected {other:?}"),
    }
    assert_eq!(
        openssl(&steps[5]),
        [
            "x509", "-req", "-in", "/tmp/a.csr", "-CA", "ca.crt", "-CAkey", "ca.key", "-CAcreateserial", "-sha256", "-days", "30",
            "-extfile", "/tmp/a.ext", "-out", "hub-a.crt"
        ]
    );
    assert!(matches!(&steps[6], CertStep::RemoveFile { path } if path == "/tmp/a.csr"));
}

#[test]
fn agent_leaf_is_client_only() {
    let args = SignArgs {
        name: "spoke-1".to_string(),
        ip: vec![],
        host: vec![],
        ca_key: "k".to_string(),
        ca_crt: "c".to_string(),
        key: Some("out.key".to_string()),
        crt: Some("out.crt".to_string()),
        days: 825,
    };
    let steps = run(CertCli::Agent(args), "a", "b");
    match &steps[4] {
        CertStep::WriteFile { contents, .. } => assert_eq!(contents, "keyUsage = digitalSignature\nextendedKeyUsage = clientAuth\n"),
        other => panic!("unexpected {other:?}"),
    }
    assert!(matches!(&steps[9], CertStep::Report { line } if line == "wrote out.crt"));
}
