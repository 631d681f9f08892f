//! `cert` — mTLS certificate generation (nebula-cert style), driven through
//! `openssl` so no X.509 machinery is added to the daemon.
//!
//! This module decides the work: which files must exist, the exact `openssl`
//! invocations, the extension file and what is reported. The caller performs
//! the steps in order and stops at the first that fails. Run on the
//! operator's control plane only; it never ships keys — it only generates
//! them.

use crate::controller::worker::opt_string_view;
use crate::text::{decimal, decimal_text, join, join_text};
use vstd::prelude::*;

verus! {

/// Default validity in days.
pub const DEFAULT_DAYS: u64 = 825;

/// Certificate subcommands: `cert <ca|node|agent> ...`.
#[derive(Debug)]
pub enum CertCli {
    /// Generate a self-signed CA.
    Ca(CaArgs),
    /// Generate a server+client leaf for a controller node.
    Node(SignArgs),
    /// Generate a client leaf for an agent.
    Agent(SignArgs),
}

/// Arguments of `cert ca`.
#[derive(Debug)]
pub struct CaArgs {
    /// Certificate common name.
    pub name: String,
    /// CA key output path.
    pub key: Option<String>,
    /// CA certificate output path.
    pub crt: Option<String>,
    /// Validity in days.
    pub days: u64,
}

/// Arguments of `cert node` / `cert agent`.
#[derive(Debug)]
pub struct SignArgs {
    /// Certificate common name.
    pub name: String,
    /// Subject alternative name IPs.
    pub ip: Vec<String>,
    /// Subject alternative name DNS names.
    pub host: Vec<String>,
    /// CA key path.
    pub ca_key: String,
    /// CA certificate path.
    pub ca_crt: String,
    /// Leaf key output path.
    pub key: Option<String>,
    /// Leaf certificate output path.
    pub crt: Option<String>,
    /// Validity in days.
    pub days: u64,
}

/// Resolved signing material.
pub struct Flags {
    pub name: String,
    pub ips: Vec<String>,
    pub hosts: Vec<String>,
    pub ca_key: String,
    pub ca_crt: String,
    pub key: String,
    pub crt: String,
    pub days: u64,
}

/// One step of a certificate run.
#[derive(Debug)]
pub enum CertStep {
    /// Stop with `missing` unless the file at `path` exists.
    RequireFile { path: String, missing: String },
    /// Run `openssl` with these arguments; stop if it fails.
    Openssl { args: Vec<String> },
    /// Write `contents` to `path`; stop if that fails.
    WriteFile { path: String, contents: String },
    /// Remove a temporary file, ignoring failures.
    RemoveFile { path: String },
    /// Print a line for the operator.
    Report { line: String },
}

/// A step as plain values.
pub enum StepView {
    RequireFile(Seq<char>, Seq<char>),
    Openssl(Seq<Seq<char>>),
    WriteFile(Seq<char>, Seq<char>),
    RemoveFile(Seq<char>),
    Report(Seq<char>),
}

pub open spec fn texts(v: Seq<String>) -> Seq<Seq<char>> {
    v.map_values(|s: String| s@)
}

impl View for CertStep {
    type V = StepView;

    open spec fn view(&self) -> StepView {
        match self {
            CertStep::RequireFile { path, missing } => StepView::RequireFile(path@, missing@),
            CertStep::Openssl { args } => StepView::Openssl(texts(args@)),
            CertStep::WriteFile { path, contents } => StepView::WriteFile(path@, contents@),
            CertStep::RemoveFile { path } => StepView::RemoveFile(path@),
            CertStep::Report { line } => StepView::Report(line@),
        }
    }
}

/// Signing material as plain values.
pub struct FlagsView {
    pub name: Seq<char>,
    pub ips: Seq<Seq<char>>,
    pub hosts: Seq<Seq<char>>,
    pub ca_key: Seq<char>,
    pub ca_crt: Seq<char>,
    pub key: Seq<char>,
    pub crt: Seq<char>,
    pub days: u64,
}

impl View for Flags {
    type V = FlagsView;

    open spec fn view(&self) -> FlagsView {
        FlagsView {
            name: self.name@,
            ips: texts(self.ips@),
            hosts: texts(self.hosts@),
            ca_key: self.ca_key@,
            ca_crt: self.ca_crt@,
            key: self.key@,
            crt: self.crt@,
            days: self.days,
        }
    }
}

pub open spec fn or_default(o: Option<Seq<char>>, d: Seq<char>) -> Seq<char> {
    match o {
        Some(s) => s,
        None => d,
    }
}

/// `openssl` arguments generating a P-256 key at `key`.
pub open spec fn key_args(key: Seq<char>) -> Seq<Seq<char>> {
    seq!["genpkey"@, "-algorithm"@, "EC"@, "-pkeyopt"@, "ec_paramgen_curve:P-256"@, "-out"@, key]
}

/// `openssl` arguments self-signing the CA certificate.
pub open spec fn ca_req_args(f: FlagsView) -> Seq<Seq<char>> {
    seq![
        "req"@,
        "-x509"@,
        "-new"@,
        "-key"@,
        f.key,
        "-sha256"@,
        "-days"@,
        decimal(f.days as nat),
        "-subj"@,
        "/CN="@ + f.name,
        "-out"@,
        f.crt,
    ]
}

/// Subject alternative names: the IPs, then the DNS names.
pub open spec fn sans(f: FlagsView) -> Seq<Seq<char>> {
    f.ips.map_values(|ip: Seq<char>| "IP:"@ + ip) + f.hosts.map_values(|h: Seq<char>| "DNS:"@ + h)
}

/// The X.509 extension lines of a leaf.
pub open spec fn ext_lines(f: FlagsView, agent: bool) -> Seq<Seq<char>> {
    let base = seq![
        "keyUsage = digitalSignature"@,
        "extendedKeyUsage = "@ + (if agent { "clientAuth"@ } else { "serverAuth, clientAuth"@ }),
    ];
    if f.ips.len() > 0 || f.hosts.len() > 0 {
        base.push("subjectAltName = "@ + join(sans(f), ","@))
    } else {
        base
    }
}

/// `openssl` arguments making the leaf's signing request.
pub open spec fn csr_args(f: FlagsView, csr: Seq<char>) -> Seq<Seq<char>> {
    seq!["req"@, "-new"@, "-key"@, f.key, "-subj"@, "/CN="@ + f.name, "-out"@, csr]
}

/// `openssl` arguments signing the leaf with the CA and the extension file.
pub open spec fn x509_args(f: FlagsView, csr: Seq<char>, ext: Seq<char>) -> Seq<Seq<char>> {
    seq![
        "x509"@,
        "-req"@,
        "-in"@,
        csr,
        "-CA"@,
        f.ca_crt,
        "-CAkey"@,
        f.ca_key,
        "-CAcreateserial"@,
        "-sha256"@,
        "-days"@,
        decimal(f.days as nat),
        "-extfile"@,
        ext,
        "-out"@,
        f.crt,
    ]
}

/// The lines reporting the written key and certificate.
pub open spec fn reports(f: FlagsView) -> Seq<StepView> {
    seq![StepView::Report("wrote "@ + f.key), StepView::Report("wrote "@ + f.crt)]
}

/// The steps of `cert ca`.
pub open spec fn ca_plan(f: FlagsView) -> Seq<StepView> {
    seq![StepView::Openssl(key_args(f.key)), StepView::Openssl(ca_req_args(f))] + reports(f)
}

/// The steps of `cert node` (agent false) or `cert agent`, with the temporary
/// signing-request and extension-file paths `csr` and `ext`.
pub open spec fn sign_plan(f: FlagsView, agent: bool, csr: Seq<char>, ext: Seq<char>) -> Seq<StepView> {
    seq![
        StepView::RequireFile(f.ca_key, "CA key not found: "@ + f.ca_key + " (run `cert ca` first)"@),
        StepView::RequireFile(f.ca_crt, "CA cert not found: "@ + f.ca_crt + " (run `cert ca` first)"@),
        StepView::Openssl(key_args(f.key)),
        StepView::Openssl(csr_args(f, csr)),
        StepView::WriteFile(ext, join(ext_lines(f, agent), "\n"@) + "\n"@),
        StepView::Openssl(x509_args(f, csr, ext)),
        StepView::RemoveFile(csr),
        StepView::RemoveFile(ext),
    ] + reports(f)
}

/// The signing material of `cert ca`.
pub open spec fn ca_flags(a: CaArgs) -> FlagsView {
    FlagsView {
        name: a.name@,
        ips: Seq::empty(),
        hosts: Seq::empty(),
        ca_key: "ca.key"@,
        ca_crt: "ca.crt"@,
        key: or_default(opt_string_view(a.key), "ca.key"@),
        crt: or_default(opt_string_view(a.crt), "ca.crt"@),
        days: a.days,
    }
}

/// The signing material of a leaf: outputs default to `<name>.key` and
/// `<name>.crt`.
pub open spec fn sign_flags(a: SignArgs) -> FlagsView {
    FlagsView {
        name: a.name@,
        ips: texts(a.ip@),
        hosts: texts(a.host@),
        ca_key: a.ca_key@,
        ca_crt: a.ca_crt@,
        key: or_default(opt_string_view(a.key), a.name@ + ".key"@),
        crt: or_default(opt_string_view(a.crt), a.name@ + ".crt"@),
        days: a.days,
    }
}

/// The steps of a certificate run.
pub open spec fn plan_of(cli: CertCli, csr: Seq<char>, ext: Seq<char>) -> Seq<StepView> {
    match cli {
        CertCli::Ca(a) => ca_plan(ca_flags(a)),
        CertCli::Node(a) => sign_plan(sign_flags(a), false, csr, ext),
        CertCli::Agent(a) => sign_plan(sign_flags(a), true, csr, ext),
    }
}

fn push_text(v: &mut Vec<String>, s: String)
    ensures
        texts(final(v)@) == texts(old(v)@).push(s@),
{
    let ghost prev = v@;
    v.push(s);
    proof {
        assert(v@ == prev.push(s));
        assert(texts(v@) =~= texts(prev).push(s@));
    }
}

fn concat2(a: &str, b: &str) -> (r: String)
    ensures
        r@ == a@ + b@,
{
    let mut s = String::from_str(a);
    s.append(b);
    s
}

fn genkey_step(key: &String) -> (r: CertStep)
    ensures
        r@ == StepView::Openssl(key_args(key@)),
{
    let mut args: Vec<String> = Vec::new();
    push_text(&mut args, String::from_str("genpkey"));
    push_text(&mut args, String::from_str("-algorithm"));
    push_text(&mut args, String::from_str("EC"));
    push_text(&mut args, String::from_str("-pkeyopt"));
    push_text(&mut args, String::from_str("ec_paramgen_curve:P-256"));
    push_text(&mut args, String::from_str("-out"));
    push_text(&mut args, key.clone());
    proof {
        assert(texts(args@) =~= key_args(key@));
    }
    CertStep::Openssl { args }
}

fn report_steps(f: &Flags, steps: &mut Vec<CertStep>)
    ensures
        final(steps)@.map_values(|s: CertStep| s@) == old(steps)@.map_values(|s: CertStep| s@) + reports(f@),
{
    let ghost before = steps@.map_values(|s: CertStep| s@);
    steps.push(CertStep::Report { line: concat2("wrote ", f.key.as_str()) });
    steps.push(CertStep::Report { line: concat2("wrote ", f.crt.as_str()) });
    proof {
        assert(steps@.map_values(|s: CertStep| s@) =~= before + reports(f@));
    }
}

fn cmd_ca(f: &Flags) -> (r: Vec<CertStep>)
    ensures
        r@.map_values(|s: CertStep| s@) == ca_plan(f@),
{
    let mut steps: Vec<CertStep> = Vec::new();
    steps.push(genkey_step(&f.key));
    let mut req: Vec<String> = Vec::new();
    push_text(&mut req, String::from_str("req"));
    push_text(&mut req, String::from_str("-x509"));
    push_text(&mut req, String::from_str("-new"));
    push_text(&mut req, String::from_str("-key"));
    push_text(&mut req, f.key.clone());
    push_text(&mut req, String::from_str("-sha256"));
    push_text(&mut req, String::from_str("-days"));
    push_text(&mut req, decimal_text(f.days));
    push_text(&mut req, String::from_str("-subj"));
    push_text(&mut req, concat2("/CN=", f.name.as_str()));
    push_text(&mut req, String::from_str("-out"));
    push_text(&mut req, f.crt.clone());
    proof {
        assert(texts(req@) =~= ca_req_args(f@));
    }
    steps.push(CertStep::Openssl { args: req });
    report_steps(f, &mut steps);
    proof {
        assert(steps@.map_values(|s: CertStep| s@) =~= ca_plan(f@));
    }
    steps
}

/// The extension lines of a leaf.
fn ext_of(f: &Flags, agent: bool) -> (r: Vec<String>)
    ensures
        texts(r@) == ext_lines(f@, agent),
{
    let mut ext: Vec<String> = Vec::new();
    ext.push(String::from_str("keyUsage = digitalSignature"));
    ext.push(concat2("extendedKeyUsage = ", if agent { "clientAuth" } else { "serverAuth, clientAuth" }));
    if f.ips.len() > 0 || f.hosts.len() > 0 {
        let mut names: Vec<String> = Vec::new();
        let mut i: usize = 0;
        proof {
            assert(texts(names@) =~= texts(f.ips@).take(0).map_values(|ip: Seq<char>| "IP:"@ + ip));
        }
        while i < f.ips.len()
            invariant
                i <= f.ips@.len(),
                texts(names@) == texts(f.ips@).take(i as int).map_values(|ip: Seq<char>| "IP:"@ + ip),
            decreases f.ips@.len() - i,
        {
            push_text(&mut names, concat2("IP:", f.ips[i].as_str()));
            proof {
                let t = texts(f.ips@);
                assert(t.take(i + 1) =~= t.take(i as int).push(t[i as int]));
                assert(t.take(i + 1).map_values(|ip: Seq<char>| "IP:"@ + ip) =~= t.take(i as int).map_values(|ip: Seq<char>| "IP:"@ + ip).push("IP:"@ + t[i as int]));
            }
            i = i + 1;
        }
        let ghost ipv = texts(names@);
        proof {
            assert(texts(f.ips@).take(f.ips@.len() as int) =~= texts(f.ips@));
        }
        let mut j: usize = 0;
        proof {
            assert(texts(names@) =~= ipv + texts(f.hosts@).take(0).map_values(|h: Seq<char>| "DNS:"@ + h));
        }
        while j < f.hosts.len()
            invariant
                j <= f.hosts@.len(),
                ipv == texts(f.ips@).map_values(|ip: Seq<char>| "IP:"@ + ip),
                texts(names@) == ipv + texts(f.hosts@).take(j as int).map_values(|h: Seq<char>| "DNS:"@ + h),
            decreases f.hosts@.len() - j,
        {
            push_text(&mut names, concat2("DNS:", f.hosts[j].as_str()));
            proof {
                let t = texts(f.hosts@);
                assert(t.take(j + 1) =~= t.take(j as int).push(t[j as int]));
                assert(t.take(j + 1).map_values(|h: Seq<char>| "DNS:"@ + h) =~= t.take(j as int).map_values(|h: Seq<char>| "DNS:"@ + h).push("DNS:"@ + t[j as int]));
                assert(texts(names@) =~= ipv + t.take(j + 1).map_values(|h: Seq<char>| "DNS:"@ + h));
            }
            j = j + 1;
        }
        proof {
            assert(texts(f.hosts@).take(f.hosts@.len() as int) =~= texts(f.hosts@));
            assert(texts(names@) =~= sans(f@));
        }
        let joined = join_text(&names, ",");
        ext.push(concat2("subjectAltName = ", joined.as_str()));
    }
    proof {
        assert(texts(ext@) =~= ext_lines(f@, agent));
    }
    ext
}

fn cmd_sign(f: &Flags, agent: bool, csr: &str, extfile: &str) -> (r: Vec<CertStep>)
    ensures
        r@.map_values(|s: CertStep| s@) == sign_plan(f@, agent, csr@, extfile@),
{
    let mut steps: Vec<CertStep> = Vec::new();
    let mut m1 = concat2("CA key not found: ", f.ca_key.as_str());
    m1.append(" (run `cert ca` first)");
    steps.push(CertStep::RequireFile { path: f.ca_key.clone(), missing: m1 });
    let mut m2 = concat2("CA cert not found: ", f.ca_crt.as_str());
    m2.append(" (run `cert ca` first)");
    steps.push(CertStep::RequireFile { path: f.ca_crt.clone(), missing: m2 });
    let ext = ext_of(f, agent);
    steps.push(genkey_step(&f.key));
    let mut csr_a: Vec<String> = Vec::new();
    push_text(&mut csr_a, String::from_str("req"));
    push_text(&mut csr_a, String::from_str("-new"));
    push_text(&mut csr_a, String::from_str("-key"));
    push_text(&mut csr_a, f.key.clone());
    push_text(&mut csr_a, String::from_str("-subj"));
    push_text(&mut csr_a, concat2("/CN=", f.name.as_str()));
    push_text(&mut csr_a, String::from_str("-out"));
    push_text(&mut csr_a, String::from_str(csr));
    proof {
        assert(texts(csr_a@) =~= csr_args(f@, csr@));
    }
    steps.push(CertStep::Openssl { args: csr_a });
    let mut contents = join_text(&ext, "\n");
    contents.append("\n");
    steps.push(CertStep::WriteFile { path: String::from_str(extfile), contents });
    let mut x: Vec<String> = Vec::new();
    push_text(&mut x, String::from_str("x509"));
    push_text(&mut x, String::from_str("-req"));
    push_text(&mut x, String::from_str("-in"));
    push_text(&mut x, String::from_str(csr));
    push_text(&mut x, String::from_str("-CA"));
    push_text(&mut x, f.ca_crt.clone());
    push_text(&mut x, String::from_str("-CAkey"));
    push_text(&mut x, f.ca_key.clone());
    push_text(&mut x, String::from_str("-CAcreateserial"));
    push_text(&mut x, String::from_str("-sha256"));
    push_text(&mut x, String::from_str("-days"));
    push_text(&mut x, decimal_text(f.days));
    push_text(&mut x, String::from_str("-extfile"));
    push_text(&mut x, String::from_str(extfile));
    push_text(&mut x, String::from_str("-out"));
    push_text(&mut x, f.crt.clone());
    proof {
        assert(texts(x@) =~= x509_args(f@, csr@, extfile@));
    }
    steps.push(CertStep::Openssl { args: x });
    steps.push(CertStep::RemoveFile { path: String::from_str(csr) });
    steps.push(CertStep::RemoveFile { path: String::from_str(extfile) });
    report_steps(f, &mut steps);
    proof {
        assert(steps@.map_values(|s: CertStep| s@) =~= sign_plan(f@, agent, csr@, extfile@));
    }
    steps
}

fn path_or(o: Option<String>, d: String) -> (r: String)
    ensures
        r@ == or_default(opt_string_view(o), d@),
{
    match o {
        Some(p) => p,
        None => d,
    }
}

fn resolve_sign(a: SignArgs) -> (r: Flags)
    ensures
        r@ == sign_flags(a),
{
    let key = path_or(a.key, concat2(a.name.as_str(), ".key"));
    let crt = path_or(a.crt, concat2(a.name.as_str(), ".crt"));
    Flags { name: a.name, ips: a.ip, hosts: a.host, ca_key: a.ca_key, ca_crt: a.ca_crt, key, crt, days: a.days }
}

/// The steps of a certificate run. `csr` and `ext` are the fresh temporary
/// paths a leaf's signing request and extension file are written to.
pub fn run(cli: CertCli, csr: &str, ext: &str) -> (r: Vec<CertStep>)
    ensures
        r@.map_values(|s: CertStep| s@) == plan_of(cli, csr@, ext@),
{
    match cli {
        CertCli::Ca(a) => {
            let f = Flags {
                name: a.name,
                ips: Vec::new(),
                hosts: Vec::new(),
                ca_key: String::from_str("ca.key"),
                ca_crt: String::from_str("ca.crt"),
                key: path_or(a.key, String::from_str("ca.key")),
                crt: path_or(a.crt, String::from_str("ca.crt")),
                days: a.days,
            };
            proof {
                assert(texts(f.ips@) =~= Seq::<Seq<char>>::empty());
                assert(texts(f.hosts@) =~= Seq::<Seq<char>>::empty());
            }
            cmd_ca(&f)
        },
        CertCli::Node(a) => cmd_sign(&resolve_sign(a), false, csr, ext),
        CertCli::Agent(a) => cmd_sign(&resolve_sign(a), true, csr, ext),
    }
}

/// A leaf's extension file carries key usage, the extended key usage of its
/// role (client only for an agent, server and client for a node) and, when
/// any IP or host was given, one subjectAltName line naming every given IP
/// (`IP:`) and then every given host (`DNS:`), in order; with neither, no
/// subjectAltName line at all.
pub proof fn law_leaf_names_every_ip_and_host(f: FlagsView, agent: bool)
    ensures
        ext_lines(f, agent)[0] == "keyUsage = digitalSignature"@,
        ext_lines(f, agent)[1] == "extendedKeyUsage = "@ + (if agent { "clientAuth"@ } else { "serverAuth, clientAuth"@ }),
        (f.ips.len() > 0 || f.hosts.len() > 0) ==> ext_lines(f, agent).len() == 3 && ext_lines(f, agent)[2] == "subjectAltName = "@
            + join(f.ips.map_values(|ip: Seq<char>| "IP:"@ + ip) + f.hosts.map_values(|h: Seq<char>| "DNS:"@ + h), ","@),
        (f.ips.len() == 0 && f.hosts.len() == 0) ==> ext_lines(f, agent).len() == 2,
        forall|j: int| 0 <= j < f.hosts.len() ==> (f.ips.map_values(|ip: Seq<char>| "IP:"@ + ip) + f.hosts.map_values(
            |h: Seq<char>| "DNS:"@ + h,
        )).contains("DNS:"@ + #[trigger] f.hosts[j]),
{
    let all = f.ips.map_values(|ip: Seq<char>| "IP:"@ + ip) + f.hosts.map_values(|h: Seq<char>| "DNS:"@ + h);
    assert(sans(f) == all);
    assert forall|j: int| 0 <= j < f.hosts.len() implies all.contains("DNS:"@ + #[trigger] f.hosts[j]) by {
        assert(all[f.ips.len() + j] == "DNS:"@ + f.hosts[j]);
    }
}

} // verus!
