//! Whether the endpoints of an app are ready.
//!
//! Every endpoint gets a plan: what is probed, how often and how long it may take. A probe dials
//! every address that the endpoint is served on and passes only where all of them answer. Only a
//! change of an endpoint's status is reported.

use crate::app::{
    ascending, endpoint_names, AppConfig, AppEndpoint, CommandValue, CommandView, EndpointProbe,
    EndpointProtocol,
};
use crate::text::{
    cat2, cat3, cat4, chars_of, contains_char, contains_str, decimal, decimal_of, ends_with, owned,
    parse_number, parsed_u64, slice_of, stands_at, views,
};
use vstd::prelude::*;

verus! {

/// Milliseconds between probes where nothing else is declared.
pub const DEFAULT_PROBE_INTERVAL: u64 = 10_000;

/// Milliseconds that a probe may take where nothing else is declared.
pub const DEFAULT_PROBE_TIMEOUT: u64 = 5_000;

/// How many failures in a row make an endpoint unready.
pub const FAILURE_THRESHOLD: u32 = 3;

/// The address that is dialed while the node's own is not known.
pub const FALLBACK_PROBE_HOST: &'static str = "127.0.0.1";

// ---------------------------------------------------------------------------
// Durations
// ---------------------------------------------------------------------------

/// A whole number of a unit, in milliseconds.
pub open spec fn amount(digits: Seq<char>, unit: nat) -> Option<nat> {
    match parse_number(digits, u64::MAX as nat) {
        Some(n) => if n * unit <= u64::MAX {
            Some(n * unit)
        } else {
            None
        },
        None => None,
    }
}

/// Whether a text ends with a suffix.
pub open spec fn has_end(s: Seq<char>, end: Seq<char>) -> bool {
    s.len() >= end.len() && stands_at(s, end, s.len() - end.len())
}

/// A duration in milliseconds: a whole number and one of the units `ms`, `s`, `m` and `h`.
pub open spec fn duration_of(value: Seq<char>) -> Option<nat> {
    let n = value.len() as int;
    if has_end(value, "ms"@) {
        amount(value.subrange(0, n - 2), 1)
    } else if has_end(value, "s"@) {
        amount(value.subrange(0, n - 1), 1_000)
    } else if has_end(value, "m"@) {
        amount(value.subrange(0, n - 1), 60_000)
    } else if has_end(value, "h"@) {
        amount(value.subrange(0, n - 1), 3_600_000)
    } else {
        None
    }
}

fn amount_of(digits: &[char], unit: u64) -> (r: Option<u64>)
    ensures
        match r {
            Some(n) => amount(digits@, unit as nat) == Some(n as nat),
            None => amount(digits@, unit as nat) is None,
        },
{
    match parsed_u64(digits) {
        Some(n) => n.checked_mul(unit),
        None => None,
    }
}

/// Reads a duration in milliseconds.
pub fn parse_duration(value: &str) -> (r: Option<u64>)
    ensures
        match r {
            Some(n) => duration_of(value@) == Some(n as nat),
            None => duration_of(value@) is None,
        },
{
    let chars = chars_of(value);
    let n: usize = chars.len();
    proof {
        reveal_strlit("ms");
        reveal_strlit("s");
        reveal_strlit("m");
        reveal_strlit("h");
    }
    if ends_with(&chars, "ms") {
        amount_of(&slice_of(&chars, 0, n - 2), 1)
    } else if ends_with(&chars, "s") {
        amount_of(&slice_of(&chars, 0, n - 1), 1_000)
    } else if ends_with(&chars, "m") {
        amount_of(&slice_of(&chars, 0, n - 1), 60_000)
    } else if ends_with(&chars, "h") {
        amount_of(&slice_of(&chars, 0, n - 1), 3_600_000)
    } else {
        None
    }
}

/// A declared duration, or the default where none is declared, it cannot be read or it is zero.
pub open spec fn duration_or(value: Option<Seq<char>>, default: nat) -> nat {
    match value {
        Some(text) => match duration_of(text) {
            Some(n) => if n == 0 {
                default
            } else {
                n
            },
            None => default,
        },
        None => default,
    }
}

fn probe_duration(value: &Option<String>, default: u64) -> (r: u64)
    ensures
        r == duration_or(text_of(*value), default as nat),
{
    match value {
        Some(text) => match parse_duration(text.as_str()) {
            Some(n) => if n == 0 {
                default
            } else {
                n
            },
            None => default,
        },
        None => default,
    }
}

/// The text of an optional string.
pub open spec fn text_of(value: Option<String>) -> Option<Seq<char>> {
    match value {
        Some(text) => Some(text@),
        None => None,
    }
}

// ---------------------------------------------------------------------------
// Plans
// ---------------------------------------------------------------------------

/// What the probe of an endpoint does.
#[derive(Debug, PartialEq, Eq)]
pub enum ProbeKind {
    /// Connects to the port.
    Tcp { port: u16 },
    /// Gets the path, over TLS where the endpoint speaks it.
    Http { port: u16, path: String, tls: bool },
    /// Runs the app's own check.
    Command(CommandValue),
    /// Nothing: the endpoint is as ready as the app is.
    AppReadiness,
}

/// What a probe does, as a value.
pub enum KindView {
    Tcp { port: u16 },
    Http { port: u16, path: Seq<char>, tls: bool },
    Command(CommandView),
    AppReadiness,
}

impl View for ProbeKind {
    type V = KindView;

    open spec fn view(&self) -> KindView {
        match self {
            ProbeKind::Tcp { port } => KindView::Tcp { port: *port },
            ProbeKind::Http { port, path, tls } => KindView::Http {
                port: *port,
                path: path@,
                tls: *tls,
            },
            ProbeKind::Command(command) => KindView::Command(command@),
            ProbeKind::AppReadiness => KindView::AppReadiness,
        }
    }
}

/// What is probed where nothing is declared.
pub open spec fn default_kind(port: u16, protocol: EndpointProtocol) -> KindView {
    if protocol == EndpointProtocol::Udp {
        KindView::AppReadiness
    } else {
        KindView::Tcp { port }
    }
}

/// What is probed. A command counts before a path, and a path before a plain connection; a plain
/// connection that is declared away leaves nothing to probe.
pub open spec fn kind_of(
    port: u16,
    protocol: EndpointProtocol,
    probe: Option<EndpointProbe>,
) -> KindView {
    match probe {
        None => default_kind(port, protocol),
        Some(p) => if p.command is Some {
            KindView::Command(p.command->0@)
        } else if p.http is Some {
            KindView::Http { port, path: p.http->0@, tls: protocol == EndpointProtocol::Https }
        } else {
            match p.tcp {
                Some(true) => KindView::Tcp { port },
                Some(false) => KindView::AppReadiness,
                None => default_kind(port, protocol),
            }
        },
    }
}

/// What the probe of an endpoint does.
pub fn probe_kind(port: u16, protocol: EndpointProtocol, probe: &Option<EndpointProbe>) -> (r:
    ProbeKind)
    ensures
        r@ == kind_of(port, protocol, *probe),
{
    if let Some(p) = probe {
        if let Some(command) = &p.command {
            return ProbeKind::Command(command.clone());
        }
        if let Some(path) = &p.http {
            return ProbeKind::Http {
                port,
                path: path.clone(),
                tls: protocol == EndpointProtocol::Https,
            };
        }
        if let Some(tcp) = p.tcp {
            return if tcp {
                ProbeKind::Tcp { port }
            } else {
                ProbeKind::AppReadiness
            };
        }
    }
    match protocol {
        EndpointProtocol::Udp => ProbeKind::AppReadiness,
        _ => ProbeKind::Tcp { port },
    }
}

/// How one endpoint is probed.
#[derive(Debug, PartialEq, Eq)]
pub struct EndpointProbePlan {
    pub endpoint: String,
    pub kind: ProbeKind,
    /// Milliseconds between probes.
    pub interval: u64,
    /// Milliseconds that a probe may take.
    pub timeout: u64,
}

/// How one endpoint is probed, as a value.
pub struct PlanView {
    pub endpoint: Seq<char>,
    pub kind: KindView,
    pub interval: nat,
    pub timeout: nat,
}

impl View for EndpointProbePlan {
    type V = PlanView;

    open spec fn view(&self) -> PlanView {
        PlanView {
            endpoint: self.endpoint@,
            kind: self.kind@,
            interval: self.interval as nat,
            timeout: self.timeout as nat,
        }
    }
}

/// The plan of an endpoint.
pub open spec fn plan_of(name: Seq<char>, endpoint: AppEndpoint) -> PlanView {
    PlanView {
        endpoint: name,
        kind: kind_of(endpoint.port, endpoint.protocol, endpoint.probe),
        interval: duration_or(
            match endpoint.probe {
                Some(p) => text_of(p.interval),
                None => None,
            },
            DEFAULT_PROBE_INTERVAL as nat,
        ),
        timeout: duration_or(
            match endpoint.probe {
                Some(p) => text_of(p.timeout),
                None => None,
            },
            DEFAULT_PROBE_TIMEOUT as nat,
        ),
    }
}

fn plan_endpoint(name: &str, endpoint: &AppEndpoint) -> (r: EndpointProbePlan)
    ensures
        r@ == plan_of(name@, *endpoint),
{
    let mut interval: u64 = DEFAULT_PROBE_INTERVAL;
    let mut timeout: u64 = DEFAULT_PROBE_TIMEOUT;
    if let Some(probe) = &endpoint.probe {
        interval = probe_duration(&probe.interval, DEFAULT_PROBE_INTERVAL);
        timeout = probe_duration(&probe.timeout, DEFAULT_PROBE_TIMEOUT);
    }
    EndpointProbePlan {
        endpoint: owned(name),
        kind: probe_kind(endpoint.port, endpoint.protocol, &endpoint.probe),
        interval,
        timeout,
    }
}

/// The plan of every endpoint that an app declares, in the order of the names.
pub fn plan_endpoint_probes(config: &AppConfig) -> (r: Vec<EndpointProbePlan>)
    requires
        config.wf(),
    ensures
        r.len() == config.declared().len(),
        forall|i: int|
            0 <= i < r.len() ==> (#[trigger] r@[i])@ == plan_of(
                config.declared()[i].0@,
                config.declared()[i].1,
            ),
        ascending(r@.map_values(|p: EndpointProbePlan| p.endpoint@)),
{
    let endpoints = config.endpoints();
    let mut plans: Vec<EndpointProbePlan> = Vec::new();
    for i in 0..endpoints.len()
        invariant
            plans.len() == i,
            forall|j: int|
                0 <= j < i ==> (#[trigger] plans@[j])@ == plan_of(
                    endpoints@[j].0@,
                    endpoints@[j].1,
                ),
    {
        plans.push(plan_endpoint(endpoints[i].0.as_str(), &endpoints[i].1));
    }
    assert(plans@.map_values(|p: EndpointProbePlan| p.endpoint@) =~= endpoint_names(
        config.declared(),
    )) by {
        assert forall|j: int| 0 <= j < plans.len() implies (#[trigger] plans@[j]).endpoint@
            == endpoints@[j].0@ by {
            assert(plans@[j]@ == plan_of(endpoints@[j].0@, endpoints@[j].1));
        }
    }
    plans
}

/// Every plan waits a while between probes and gives each some time.
pub proof fn law_a_plan_never_spins(name: Seq<char>, endpoint: AppEndpoint)
    ensures
        plan_of(name, endpoint).interval > 0,
        plan_of(name, endpoint).timeout > 0,
{
}

// ---------------------------------------------------------------------------
// Addresses
// ---------------------------------------------------------------------------

/// What a probe runs in: the app's directory and environment, and the node's own address.
pub struct ProbeContext {
    pub work_dir: String,
    pub env: Vec<(String, String)>,
    pub host: Option<String>,
}

impl Default for ProbeContext {
    fn default() -> (r: Self)
        ensures
            r.work_dir@ == Seq::<char>::empty(),
            r.env@ == Seq::<(String, String)>::empty(),
            r.host is None,
    {
        ProbeContext { work_dir: String::new(), env: Vec::new(), host: None }
    }
}

/// Addresses with those of a list behind them that are not yet among them.
pub open spec fn extended(targets: Seq<Seq<char>>, more: Seq<Seq<char>>) -> Seq<Seq<char>>
    decreases more.len(),
{
    if more.len() == 0 {
        targets
    } else {
        let before = extended(targets, more.drop_last());
        if before.contains(more.last()) {
            before
        } else {
            before.push(more.last())
        }
    }
}

/// The addresses that an endpoint is probed on.
pub open spec fn targets(host: Option<Seq<char>>, delivered: Seq<Seq<char>>) -> Seq<Seq<char>> {
    extended(
        seq![
            match host {
                Some(address) => address,
                None => FALLBACK_PROBE_HOST@,
            },
        ],
        delivered,
    )
}

impl ProbeContext {
    /// The addresses that an endpoint is probed on: the node's own, then those that the endpoint
    /// is delivered on, each once.
    pub fn probe_targets(&self, delivered: &Vec<String>) -> (r: Vec<String>)
        ensures
            views(r@) == targets(text_of(self.host), views(delivered@)),
    {
        let mut out: Vec<String> = Vec::new();
        match &self.host {
            Some(address) => out.push(address.clone()),
            None => out.push(owned(FALLBACK_PROBE_HOST)),
        }
        let ghost first = seq![
            match text_of(self.host) {
                Some(address) => address,
                None => FALLBACK_PROBE_HOST@,
            },
        ];
        assert(views(out@) =~= first);
        assert(views(delivered@).take(0) =~= Seq::<Seq<char>>::empty());
        for i in 0..delivered.len()
            invariant
                views(out@) == extended(first, views(delivered@).take(i as int)),
        {
            let ghost all = views(delivered@);
            assert(all.take(i + 1).drop_last() =~= all.take(i as int));
            assert(all.take(i + 1).last() == delivered@[i as int]@);
            let ghost before = views(out@);
            if !contains_str(&out, delivered[i].as_str()) {
                out.push(delivered[i].clone());
                assert(views(out@) =~= before.push(delivered@[i as int]@));
            }
        }
        assert(views(delivered@).take(delivered.len() as int) =~= views(delivered@));
        out
    }
}

/// An endpoint is probed on the node's own address, on every address that it is delivered on, on
/// no other, and on none of them twice.
pub proof fn law_every_address_is_probed_once(host: Option<Seq<char>>, delivered: Seq<Seq<char>>)
    ensures
        targets(host, delivered).len() > 0,
        targets(host, delivered)[0] == (match host {
            Some(address) => address,
            None => FALLBACK_PROBE_HOST@,
        }),
        forall|a: Seq<char>| #[trigger]
            targets(host, delivered).contains(a) <==> a == targets(host, delivered)[0]
                || delivered.contains(a),
        targets(host, delivered).no_duplicates(),
    decreases delivered.len(),
{
    if delivered.len() == 0 {
        assert(!delivered.contains(targets(host, delivered)[0]));
        assert forall|a: Seq<char>| #[trigger] targets(host, delivered).contains(a) <==> a
            == targets(host, delivered)[0] || delivered.contains(a) by {
            if a == targets(host, delivered)[0] {
                assert(targets(host, delivered).contains(a));
            }
        }
    } else {
        let rest = delivered.drop_last();
        let last = delivered.last();
        law_every_address_is_probed_once(host, rest);
        let before = targets(host, rest);
        let after = targets(host, delivered);
        assert forall|a: Seq<char>| delivered.contains(a) <==> rest.contains(a) || a == last by {
            if delivered.contains(a) {
                let i = choose|i: int| 0 <= i < delivered.len() && delivered[i] == a;
                if i < rest.len() {
                    assert(rest[i] == a);
                }
            }
            if rest.contains(a) {
                let i = choose|i: int| 0 <= i < rest.len() && rest[i] == a;
                assert(delivered[i] == a);
            }
            assert(delivered[delivered.len() - 1] == last);
        }
        if !before.contains(last) {
            assert(after == before.push(last));
            assert forall|a: Seq<char>| after.contains(a) <==> before.contains(a) || a == last by {
                if after.contains(a) {
                    let i = choose|i: int| 0 <= i < after.len() && after[i] == a;
                    if i < before.len() {
                        assert(before[i] == a);
                    }
                }
                if before.contains(a) {
                    let i = choose|i: int| 0 <= i < before.len() && before[i] == a;
                    assert(after[i] == a);
                }
                assert(after[after.len() - 1] == last);
            }
        }
    }
}

// ---------------------------------------------------------------------------
// Verdicts
// ---------------------------------------------------------------------------

/// What came of a probe: that it passed, or why it did not.
pub open spec fn verdict(r: Result<(), String>) -> Option<Seq<char>> {
    match r {
        Ok(()) => None,
        Err(reason) => Some(reason@),
    }
}

/// The first failure in a list of results.
pub open spec fn first_reason(outcomes: Seq<Result<(), String>>) -> Option<Seq<char>>
    decreases outcomes.len(),
{
    if outcomes.len() == 0 {
        None
    } else if outcomes[0] is Err {
        verdict(outcomes[0])
    } else {
        first_reason(outcomes.drop_first())
    }
}

/// What came of a probe that dialed several addresses: it passes where all of them answered, and
/// gives the first failure in the order of the addresses.
pub fn on_every_address(outcomes: &Vec<Result<(), String>>) -> (r: Result<(), String>)
    ensures
        verdict(r) == first_reason(outcomes@),
        r is Ok <==> forall|i: int| 0 <= i < outcomes.len() ==> (#[trigger] outcomes@[i]) is Ok,
{
    assert(outcomes@.skip(0) =~= outcomes@);
    for i in 0..outcomes.len()
        invariant
            first_reason(outcomes@) == first_reason(outcomes@.skip(i as int)),
            forall|j: int| 0 <= j < i ==> (#[trigger] outcomes@[j]) is Ok,
    {
        let ghost rest = outcomes@.skip(i as int);
        assert(rest[0] == outcomes@[i as int]);
        assert(rest.drop_first() =~= outcomes@.skip(i + 1));
        if let Err(reason) = &outcomes[i] {
            return Err(reason.clone());
        }
    }
    Ok(())
}

/// What came of connecting to an address.
pub enum Dialed {
    Connected,
    Refused(String),
    TimedOut,
}

/// Where a connection goes, in words.
pub open spec fn dialed_name(host: Seq<char>, port: u16) -> Seq<char> {
    "connect to "@ + host + " port "@ + decimal(port as nat)
}

/// What a connection says of the endpoint.
pub fn tcp_verdict(host: &str, port: u16, dialed: &Dialed) -> (r: Result<(), String>)
    ensures
        verdict(r) == (match *dialed {
            Dialed::Connected => None,
            Dialed::Refused(e) => Some(dialed_name(host@, port) + " failed: "@ + e@),
            Dialed::TimedOut => Some(dialed_name(host@, port) + " timed out"@),
        }),
{
    let name = cat4("connect to ", host, " port ", decimal_of(port as u64).as_str());
    match dialed {
        Dialed::Connected => Ok(()),
        Dialed::Refused(e) => Err(cat3(name.as_str(), " failed: ", e.as_str())),
        Dialed::TimedOut => Err(cat2(name.as_str(), " timed out")),
    }
}

/// The address and the port of an endpoint as they stand in a URL. An address with a colon is
/// put in brackets.
pub open spec fn authority(host: Seq<char>, port: u16) -> Seq<char> {
    (if host.contains(':') {
        "["@ + host + "]"@
    } else {
        host
    }) + ":"@ + decimal(port as nat)
}

/// The URL that an HTTP probe gets.
pub fn probe_url(host: &str, port: u16, path: &str, tls: bool) -> (r: String)
    ensures
        r@ == (if tls {
            "https"@
        } else {
            "http"@
        }) + "://"@ + authority(host@, port) + path@,
{
    let place = if contains_char(&chars_of(host), ':') {
        cat3("[", host, "]")
    } else {
        owned(host)
    };
    let scheme = if tls {
        "https"
    } else {
        "http"
    };
    let full = cat3(place.as_str(), ":", decimal_of(port as u64).as_str());
    cat4(scheme, "://", full.as_str(), path)
}

/// What came of getting a path.
pub enum Got {
    /// A response with this status.
    Answered(u16),
    Failed(String),
    TimedOut,
}

/// What is gotten, in words.
pub open spec fn got_name(path: Seq<char>, host: Seq<char>) -> Seq<char> {
    "http probe "@ + path + " on "@ + host
}

/// What speaks against an endpoint in what came of asking it for a path: nothing if it answered
/// with a success or a redirection.
pub open spec fn got_reason(host: Seq<char>, path: Seq<char>, got: Got) -> Option<Seq<char>> {
    match got {
        Got::Answered(status) => if 200 <= status < 400 {
            None
        } else {
            Some(got_name(path, host) + " returned "@ + decimal(status as nat))
        },
        Got::Failed(e) => Some(got_name(path, host) + " failed: "@ + e@),
        Got::TimedOut => Some(got_name(path, host) + " timed out"@),
    }
}

/// What a response says of the endpoint. A redirect passes: something serves the endpoint.
pub fn http_verdict(host: &str, path: &str, got: &Got) -> (r: Result<(), String>)
    ensures
        verdict(r) == got_reason(host@, path@, *got),
{
    let name = cat4("http probe ", path, " on ", host);
    match got {
        Got::Answered(status) => {
            let code: u16 = *status;
            if 200 <= code && code < 400 {
                Ok(())
            } else {
                Err(cat3(name.as_str(), " returned ", decimal_of(code as u64).as_str()))
            }
        },
        Got::Failed(e) => Err(cat3(name.as_str(), " failed: ", e.as_str())),
        Got::TimedOut => Err(cat2(name.as_str(), " timed out")),
    }
}

/// What came of running a check.
pub enum Ran {
    /// The command could not be made out.
    Unreadable(String),
    NotStarted(String),
    TimedOut,
    /// It could not be waited for.
    Lost(String),
    /// It exited, with a status in words.
    Exited { success: bool, status: String },
}

/// What a check says of the endpoint.
pub fn command_verdict(ran: &Ran) -> (r: Result<(), String>)
    ensures
        verdict(r) == (match *ran {
            Ran::Unreadable(e) => Some("probe command: "@ + e@),
            Ran::NotStarted(e) => Some("probe command failed to start: "@ + e@),
            Ran::TimedOut => Some("probe command timed out"@),
            Ran::Lost(e) => Some("probe command failed: "@ + e@),
            Ran::Exited { success, status } => if success {
                None
            } else {
                Some("probe command exited with "@ + status@)
            },
        }),
{
    match ran {
        Ran::Unreadable(e) => Err(cat2("probe command: ", e.as_str())),
        Ran::NotStarted(e) => Err(cat2("probe command failed to start: ", e.as_str())),
        Ran::TimedOut => Err(owned("probe command timed out")),
        Ran::Lost(e) => Err(cat2("probe command failed: ", e.as_str())),
        Ran::Exited { success, status } => if *success {
            Ok(())
        } else {
            Err(cat2("probe command exited with ", status.as_str()))
        },
    }
}

// ---------------------------------------------------------------------------
// Status
// ---------------------------------------------------------------------------

/// Whether an endpoint is ready, as far as it is known.
#[derive(Debug, Clone, Copy, PartialEq, Eq, Structural)]
pub enum EndpointStatus {
    Unknown,
    Ready,
    Unready,
}

impl Default for EndpointStatus {
    fn default() -> (r: Self)
        ensures
            r == EndpointStatus::Unknown,
    {
        EndpointStatus::Unknown
    }
}

impl EndpointStatus {
    /// The status in a word.
    pub fn as_str(self) -> (r: &'static str)
        ensures
            r@ == (match self {
                EndpointStatus::Unknown => "unknown"@,
                EndpointStatus::Ready => "ready"@,
                EndpointStatus::Unready => "unready"@,
            }),
    {
        match self {
            EndpointStatus::Unknown => "unknown",
            EndpointStatus::Ready => "ready",
            EndpointStatus::Unready => "unready",
        }
    }
}

/// A change of status that is worth reporting.
#[derive(Debug, PartialEq, Eq)]
pub struct StatusChange {
    pub status: EndpointStatus,
    /// Why the endpoint is unready; empty where it is ready.
    pub reason: String,
    /// How many changes there were before.
    pub seq: u64,
}

/// A change of one endpoint's status.
#[derive(Debug, PartialEq, Eq)]
pub struct EndpointTransition {
    pub app: String,
    pub endpoint: String,
    pub status: EndpointStatus,
    pub reason: String,
    pub seq: u64,
}

impl EndpointTransition {
    /// The change of an endpoint of an app.
    pub fn of(app: &str, endpoint: &str, change: StatusChange) -> (r: EndpointTransition)
        ensures
            r.app@ == app@,
            r.endpoint@ == endpoint@,
            r.status == change.status,
            r.reason@ == change.reason@,
            r.seq == change.seq,
    {
        EndpointTransition {
            app: owned(app),
            endpoint: owned(endpoint),
            status: change.status,
            reason: change.reason,
            seq: change.seq,
        }
    }

    /// The one change of an endpoint that is never probed: it is ready.
    pub fn ready_with_the_app(app: &str, endpoint: &str) -> (r: EndpointTransition)
        ensures
            r.app@ == app@,
            r.endpoint@ == endpoint@,
            r.status == EndpointStatus::Ready,
            r.reason@ == Seq::<char>::empty(),
            r.seq == 0,
    {
        EndpointTransition {
            app: owned(app),
            endpoint: owned(endpoint),
            status: EndpointStatus::Ready,
            reason: String::new(),
            seq: 0,
        }
    }
}

/// What is known of an endpoint, as a value.
pub struct StateView {
    pub status: EndpointStatus,
    /// The failures in a row.
    pub failures: nat,
    /// The changes of status so far.
    pub transitions: nat,
}

/// Nothing is known yet.
pub open spec fn unprobed() -> StateView {
    StateView { status: EndpointStatus::Unknown, failures: 0, transitions: 0 }
}

/// What is known after one more status.
pub open spec fn moved_to(state: StateView, status: EndpointStatus, failures: nat) -> StateView {
    StateView {
        status,
        failures,
        transitions: if state.status == status {
            state.transitions
        } else {
            state.transitions + 1
        },
    }
}

/// What is known after one more probe. One success makes an endpoint ready; it takes several
/// failures in a row to make it unready.
pub open spec fn observed(state: StateView, passed: bool) -> StateView {
    if passed {
        moved_to(state, EndpointStatus::Ready, 0)
    } else {
        let failures = if state.failures < u32::MAX {
            state.failures + 1
        } else {
            state.failures
        };
        if failures < FAILURE_THRESHOLD {
            moved_to(state, state.status, failures)
        } else {
            moved_to(state, EndpointStatus::Unready, failures)
        }
    }
}

/// What is known of one endpoint.
#[derive(Debug)]
pub struct ProbeState {
    status: EndpointStatus,
    failures: u32,
    transitions: u64,
}

impl View for ProbeState {
    type V = StateView;

    closed spec fn view(&self) -> StateView {
        StateView {
            status: self.status,
            failures: self.failures as nat,
            transitions: self.transitions as nat,
        }
    }
}

impl Default for ProbeState {
    fn default() -> (r: Self)
        ensures
            r@ == unprobed(),
    {
        ProbeState { status: EndpointStatus::Unknown, failures: 0, transitions: 0 }
    }
}

impl ProbeState {
    /// The status.
    pub fn status(&self) -> (r: EndpointStatus)
        ensures
            r == self@.status,
    {
        self.status
    }

    /// The changes of status so far.
    pub fn transitions(&self) -> (r: u64)
        ensures
            r == self@.transitions,
    {
        self.transitions
    }

    /// Takes in what came of a probe. A change comes back where the status changed, and only
    /// there.
    pub fn observe(&mut self, outcome: Result<(), String>) -> (r: Option<StatusChange>)
        requires
            old(self)@.transitions < u64::MAX,
        ensures
            final(self)@ == observed(old(self)@, outcome is Ok),
            r is Some <==> final(self)@.status != old(self)@.status,
            r matches Some(change) ==> {
                &&& change.status == final(self)@.status
                &&& change.seq == old(self)@.transitions
                &&& change.reason@ == (match outcome {
                    Ok(()) => Seq::<char>::empty(),
                    Err(reason) => reason@,
                })
            },
    {
        match outcome {
            Ok(()) => {
                self.failures = 0;
                self.transition_to(EndpointStatus::Ready, String::new())
            },
            Err(reason) => {
                if self.failures < 0xffff_ffff {
                    self.failures = self.failures + 1;
                }
                if self.failures < FAILURE_THRESHOLD {
                    return None;
                }
                self.transition_to(EndpointStatus::Unready, reason)
            },
        }
    }

    fn transition_to(&mut self, status: EndpointStatus, reason: String) -> (r: Option<StatusChange>)
        requires
            old(self)@.transitions < u64::MAX,
        ensures
            final(self)@ == moved_to(old(self)@, status, old(self)@.failures),
            r is Some <==> status != old(self)@.status,
            r matches Some(change) ==> {
                &&& change.status == status
                &&& change.seq == old(self)@.transitions
                &&& change.reason@ == reason@
            },
    {
        if self.status == status {
            return None;
        }
        self.status = status;
        let seq: u64 = self.transitions;
        self.transitions = self.transitions + 1;
        Some(StatusChange { status, reason, seq })
    }
}

// ---------------------------------------------------------------------------
// Laws
// ---------------------------------------------------------------------------

/// What is known after a row of probes.
pub open spec fn history(outcomes: Seq<bool>) -> StateView
    decreases outcomes.len(),
{
    if outcomes.len() == 0 {
        unprobed()
    } else {
        observed(history(outcomes.drop_last()), outcomes.last())
    }
}

/// How many probes failed since the last that passed.
pub open spec fn failing(outcomes: Seq<bool>) -> nat
    decreases outcomes.len(),
{
    if outcomes.len() == 0 || outcomes.last() {
        0
    } else {
        1 + failing(outcomes.drop_last())
    }
}

/// The status follows from the last probes alone: an endpoint is unready after so many failures
/// in a row, else ready if it ever passed, else unknown.
pub proof fn law_the_last_probes_decide(outcomes: Seq<bool>)
    ensures
        failing(outcomes) <= outcomes.len(),
        history(outcomes).failures == (if failing(outcomes) <= u32::MAX {
            failing(outcomes)
        } else {
            u32::MAX as nat
        }),
        history(outcomes).status == (if failing(outcomes) >= FAILURE_THRESHOLD {
            EndpointStatus::Unready
        } else if failing(outcomes) < outcomes.len() {
            EndpointStatus::Ready
        } else {
            EndpointStatus::Unknown
        }),
    decreases outcomes.len(),
{
    if outcomes.len() > 0 {
        law_the_last_probes_decide(outcomes.drop_last());
    }
}

/// The number of changes never falls, and rises by one at each change of status.
pub proof fn law_changes_are_numbered(state: StateView, passed: bool)
    ensures
        observed(state, passed).transitions == state.transitions + (if observed(
            state,
            passed,
        ).status != state.status {
            1nat
        } else {
            0nat
        }),
{
}

/// In a row of probes every change of status is told once, and the changes are numbered without a
/// gap: a probe that passes makes an endpoint ready, one that fails makes it unready where it is
/// the last of enough failures in a row and else leaves it as it is, and the number of changes
/// grows by one exactly where the status changes. So there are never more changes than probes.
pub proof fn law_every_probe_counts(outcomes: Seq<bool>, k: int)
    requires
        0 <= k < outcomes.len(),
    ensures
        ({
            let before = history(outcomes.take(k));
            let after = history(outcomes.take(k + 1));
            &&& after == observed(before, outcomes[k])
            &&& after.status == (if outcomes[k] {
                EndpointStatus::Ready
            } else if failing(outcomes.take(k + 1)) >= FAILURE_THRESHOLD {
                EndpointStatus::Unready
            } else {
                before.status
            })
            &&& after.transitions == before.transitions + (if after.status != before.status {
                1nat
            } else {
                0nat
            })
            &&& before.transitions <= k
        }),
    decreases k,
{
    assert(outcomes.take(k + 1).drop_last() =~= outcomes.take(k));
    assert(outcomes.take(k + 1).last() == outcomes[k]);
    law_the_last_probes_decide(outcomes.take(k));
    law_the_last_probes_decide(outcomes.take(k + 1));
    if k > 0 {
        law_every_probe_counts(outcomes, k - 1);
    } else {
        assert(outcomes.take(0) =~= Seq::<bool>::empty());
    }
}

/// An endpoint never goes back to being unknown.
pub proof fn law_what_is_known_stays_known(state: StateView, passed: bool)
    requires
        state.status != EndpointStatus::Unknown,
    ensures
        observed(state, passed).status != EndpointStatus::Unknown,
{
}

/// A duration is a number and its unit: milliseconds, seconds, minutes or hours.
pub proof fn law_a_duration_is_read(n: nat)
    requires
        n * 3_600_000 <= u64::MAX,
    ensures
        duration_of(decimal(n) + "ms"@) == Some(n),
        duration_of(decimal(n) + "s"@) == Some(n * 1000),
        duration_of(decimal(n) + "m"@) == Some(n * 60 * 1000),
        duration_of(decimal(n) + "h"@) == Some(n * 60 * 60 * 1000),
        duration_of(decimal(n)) is None,
{
    reveal_strlit("ms");
    reveal_strlit("s");
    reveal_strlit("m");
    reveal_strlit("h");
    let d = decimal(n);
    let k = d.len() as int;
    crate::text::law_a_number_is_read_back(n, u64::MAX as nat);
    lemma_last_digit(n);
    let (a, b, c, e) = (d + "ms"@, d + "s"@, d + "m"@, d + "h"@);
    assert(a.subrange(k, k + 2) =~= "ms"@);
    assert(a.subrange(0, k) =~= d);
    assert(b.subrange(k, k + 1) =~= "s"@);
    assert(b.subrange(0, k) =~= d);
    assert(c.subrange(k, k + 1) =~= "m"@);
    assert(c.subrange(0, k) =~= d);
    assert(e.subrange(k, k + 1) =~= "h"@);
    assert(e.subrange(0, k) =~= d);
    lemma_not_its_end(b, "ms"@, 0);
    lemma_not_its_end(c, "ms"@, 1);
    lemma_not_its_end(c, "s"@, 0);
    lemma_not_its_end(e, "ms"@, 1);
    lemma_not_its_end(e, "s"@, 0);
    lemma_not_its_end(e, "m"@, 0);
    lemma_not_its_end(d, "ms"@, 1);
    lemma_not_its_end(d, "s"@, 0);
    lemma_not_its_end(d, "m"@, 0);
    lemma_not_its_end(d, "h"@, 0);
}

proof fn lemma_last_digit(n: nat)
    ensures
        decimal(n).len() > 0,
        '0' <= decimal(n).last() <= '9',
{
}

proof fn lemma_not_its_end(s: Seq<char>, end: Seq<char>, i: int)
    requires
        0 <= i < end.len(),
        s.len() >= end.len() ==> s[s.len() - end.len() + i] != end[i],
    ensures
        !has_end(s, end),
{
    if has_end(s, end) {
        let at = s.len() - end.len();
        assert(s.subrange(at, at + end.len())[i] == s[at + i]);
    }
}

/// A duration that is not given, is none or is nothing leaves the default, and any other is taken.
pub proof fn law_a_declared_duration_is_taken(value: Option<Seq<char>>, default: nat)
    ensures
        value is None ==> duration_or(value, default) == default,
        value matches Some(text) ==> match duration_of(text) {
            None => duration_or(value, default) == default,
            Some(n) => duration_or(value, default) == (if n > 0 {
                n
            } else {
                default
            }),
        },
{
}

/// An endpoint is probed as it declares: by its command, else by its path over the protocol it has,
/// else by a connection or not at all. One that declares nothing is probed by a connection, but
/// over datagrams, where there is none to make.
pub proof fn law_an_endpoint_is_probed_as_declared(
    port: u16,
    protocol: EndpointProtocol,
    probe: Option<EndpointProbe>,
)
    ensures
        ({
            let kind = kind_of(port, protocol, probe);
            let plain = if protocol is Udp {
                KindView::AppReadiness
            } else {
                KindView::Tcp { port }
            };
            &&& probe is None ==> kind == plain
            &&& probe matches Some(p) ==> {
                &&& p.command matches Some(c) ==> kind == KindView::Command(c@)
                &&& p.command is None ==> (p.http matches Some(path) ==> kind == (KindView::Http {
                    port,
                    path: path@,
                    tls: protocol is Https,
                }))
                &&& p.command is None && p.http is None && p.tcp == Some(true) ==> kind
                    == (KindView::Tcp { port })
                &&& p.command is None && p.http is None && p.tcp == Some(false) ==> kind
                    == KindView::AppReadiness
                &&& p.command is None && p.http is None && p.tcp is None ==> kind == plain
            }
        }),
{
}

/// An endpoint is probed every ten seconds and given five, where it declares nothing else, and it
/// is planned under its own name.
pub proof fn law_an_endpoint_is_planned_under_its_name(name: Seq<char>, endpoint: AppEndpoint)
    ensures
        ({
            let plan = plan_of(name, endpoint);
            &&& plan.endpoint == name
            &&& plan.kind == kind_of(endpoint.port, endpoint.protocol, endpoint.probe)
            &&& endpoint.probe is None ==> plan.interval == 10 * 1000 && plan.timeout == 5 * 1000
            &&& endpoint.probe matches Some(p) ==> {
                &&& p.interval is None ==> plan.interval == 10 * 1000
                &&& p.timeout is None ==> plan.timeout == 5 * 1000
                &&& p.interval matches Some(text) ==> match duration_of(text@) {
                    Some(n) => n > 0 ==> plan.interval == n,
                    None => plan.interval == 10 * 1000,
                }
                &&& p.timeout matches Some(text) ==> match duration_of(text@) {
                    Some(n) => n > 0 ==> plan.timeout == n,
                    None => plan.timeout == 5 * 1000,
                }
            }
        }),
{
}

/// An endpoint is unready once three probes in a row have failed, and not before; one that passes
/// makes it ready at once.
pub proof fn law_three_failures_make_it_unready(outcomes: Seq<bool>)
    ensures
        history(outcomes).status is Unready <==> outcomes.len() >= 3 && !outcomes[outcomes.len() - 1]
            && !outcomes[outcomes.len() - 2] && !outcomes[outcomes.len() - 3],
        outcomes.len() > 0 && outcomes.last() ==> history(outcomes).status is Ready,
        outcomes.len() == 0 ==> history(outcomes).status is Unknown,
{
    law_the_last_probes_decide(outcomes);
    reveal_with_fuel(failing, 4);
    let n = outcomes.len() as int;
    if n >= 2 {
        assert(outcomes.drop_last().last() == outcomes[n - 2]);
    }
    if n >= 3 {
        assert(outcomes.drop_last().drop_last().last() == outcomes[n - 3]);
    }
}

/// The address that is probed first is the one that is known, or else this machine's own.
pub proof fn law_this_machine_is_probed_where_none_is_known(delivered: Seq<Seq<char>>)
    ensures
        targets(None, delivered)[0] == "127.0.0.1"@,
        targets(None, Seq::empty()) == seq!["127.0.0.1"@],
{
    law_every_address_is_probed_once(None, delivered);
}

/// An address with colons stands in brackets before its port, and any other as it is.
pub proof fn law_an_address_stands_before_its_port(host: Seq<char>, port: u16)
    ensures
        (exists|i: int| 0 <= i < host.len() && #[trigger] host[i] == ':') ==> authority(host, port)
            == seq!['['] + host + seq![']', ':'] + decimal(port as nat),
        (forall|i: int| 0 <= i < host.len() ==> #[trigger] host[i] != ':') ==> authority(host, port)
            == host + seq![':'] + decimal(port as nat),
{
    reveal_strlit("[");
    reveal_strlit("]");
    reveal_strlit(":");
    if exists|i: int| 0 <= i < host.len() && #[trigger] host[i] == ':' {
        assert(host.contains(':'));
        assert(authority(host, port) =~= seq!['['] + host + seq![']', ':'] + decimal(port as nat));
    } else {
        assert(!host.contains(':'));
        assert(authority(host, port) =~= host + seq![':'] + decimal(port as nat));
    }
}

/// Of several addresses the first that fails gives the reason, and there is one exactly if any
/// fails.
pub proof fn law_the_first_failure_gives_the_reason(outcomes: Seq<Result<(), String>>, i: int)
    requires
        0 <= i <= outcomes.len(),
        forall|k: int| 0 <= k < i ==> (#[trigger] outcomes[k]) is Ok,
    ensures
        i < outcomes.len() ==> (outcomes[i] matches Err(reason) ==> first_reason(outcomes) == Some(
            reason@,
        )),
        i == outcomes.len() ==> first_reason(outcomes) is None,
    decreases i,
{
    if i > 0 {
        assert(outcomes[0] is Ok);
        let rest = outcomes.drop_first();
        assert forall|k: int| 0 <= k < i - 1 implies (#[trigger] rest[k]) is Ok by {
            assert(outcomes[k + 1] is Ok);
        }
        law_the_first_failure_gives_the_reason(rest, i - 1);
    }
}

/// What is to be probed, and how it went, is shown as it is.
pub proof fn law_a_probe_is_shown_as_it_is(plan: EndpointProbePlan, outcome: Result<(), String>)
    ensures
        plan@.endpoint == plan.endpoint@,
        plan@.kind == plan.kind@,
        plan@.interval == plan.interval,
        plan@.timeout == plan.timeout,
        match plan.kind {
            ProbeKind::Tcp { port } => plan@.kind == (KindView::Tcp { port }),
            ProbeKind::Http { port, path, tls } => plan@.kind == (KindView::Http {
                port,
                path: path@,
                tls,
            }),
            ProbeKind::Command(command) => plan@.kind == KindView::Command(command@),
            ProbeKind::AppReadiness => plan@.kind == KindView::AppReadiness,
        },
        verdict(outcome) is None <==> outcome is Ok,
        outcome matches Err(reason) ==> verdict(outcome) == Some(reason@),
{
}

/// An endpoint that is asked for a path passes if it answers with a success or a redirection, and
/// by nothing else.
pub proof fn law_an_answer_decides_on_a_path(host: Seq<char>, path: Seq<char>, got: Got)
    ensures
        got_reason(host, path, got) is None <==> (got matches Got::Answered(code) && (code / 100 == 2
            || code / 100 == 3)),
{
}

/// Nothing is a duration but a number with a unit behind it.
pub proof fn law_nothing_else_is_a_duration(value: Seq<char>)
    ensures
        duration_of(value) is Some ==> {
            let n = value.len() as int;
            &&& n > 1
            &&& value[n - 1] == 's' || value[n - 1] == 'm' || value[n - 1] == 'h'
            &&& parse_number(value.take(n - 1), u64::MAX as nat) is Some || (value[n - 2] == 'm'
                && value[n - 1] == 's' && parse_number(value.take(n - 2), u64::MAX as nat) is Some)
        },
{
    reveal_strlit("ms");
    reveal_strlit("s");
    reveal_strlit("m");
    reveal_strlit("h");
    let n = value.len() as int;
    if duration_of(value) is Some {
        if has_end(value, "ms"@) {
            let end = value.subrange(n - 2, n);
            assert(end[0] == value[n - 2] && end[1] == value[n - 1]);
            assert(value.subrange(0, n - 2) =~= value.take(n - 2));
        } else {
            assert(value.subrange(n - 1, n)[0] == value[n - 1]);
            assert(value.subrange(0, n - 1) =~= value.take(n - 1));
            if n == 1 {
                crate::text::law_a_number_is_read_back(0, u64::MAX as nat);
                assert(value.take(0) =~= Seq::<char>::empty());
            }
        }
    }
}

} // verus!
