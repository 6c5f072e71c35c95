//! Whether the endpoints of an app are ready.

use std::cell::Cell;

use orc_app::app::{AppConfig, AppEndpoint, CommandValue, EndpointProbe, EndpointProtocol};
use orc_app::probe::{
    command_verdict, http_verdict, on_every_address, parse_duration, plan_endpoint_probes,
    probe_url, tcp_verdict, Dialed, EndpointProbePlan, EndpointStatus, EndpointTransition, Got,
    ProbeContext, ProbeKind, ProbeState, Ran, DEFAULT_PROBE_INTERVAL, DEFAULT_PROBE_TIMEOUT,
    FAILURE_THRESHOLD, FALLBACK_PROBE_HOST,
};

fn failure() -> Result<(), String> {
    Err("connection refused".to_owned())
}

#[test]
fn three_consecutive_failures_report_one_unready_transition() {
    let mut state = ProbeState::default();
    assert!(state.observe(failure()).is_none());
    assert!(state.observe(failure()).is_none());
    assert_eq!(state.status(), EndpointStatus::Unknown);

    let change = state.observe(failure()).expect("third failure transitions");
    assert_eq!(change.status, EndpointStatus::Unready);
    assert_eq!(change.reason, "connection refused");
    assert_eq!(change.seq, 0);
    assert_eq!(state.status(), EndpointStatus::Unready);

    // Staying down is not news.
    assert!(state.observe(failure()).is_none());
    assert!(state.observe(failure()).is_none());
    assert_eq!(state.transitions(), 1);
}

#[test]
fn one_success_reports_ready_and_repeats_are_silent() {
    let mut state = ProbeState::default();
    let change = state.observe(Ok(())).expect("first success transitions");
    assert_eq!(change.status, EndpointStatus::Ready);
    assert_eq!(change.seq, 0);
    assert!(state.observe(Ok(())).is_none());
    assert!(state.observe(Ok(())).is_none());
    assert_eq!(state.transitions(), 1);
}

#[test]
fn recovery_reports_ready_with_an_increasing_seq() {
    let mut state = ProbeState::default();
    for _ in 0..FAILURE_THRESHOLD {
        let _ = state.observe(failure());
    }
    let change = state.observe(Ok(())).expect("recovery transitions");
    assert_eq!(change.status, EndpointStatus::Ready);
    assert_eq!(change.seq, 1);
    assert_eq!(state.transitions(), 2);
}

#[test]
fn a_success_resets_the_failure_counter() {
    let mut state = ProbeState::default();
    assert!(state.observe(failure()).is_none());
    assert!(state.observe(failure()).is_none());
    assert!(state.observe(Ok(())).is_some());
    assert!(state.observe(failure()).is_none());
    assert!(state.observe(failure()).is_none());
    assert_eq!(state.status(), EndpointStatus::Ready);
    assert_eq!(state.transitions(), 1);
}

#[test]
fn status_strings_match_the_wire_vocabulary() {
    assert_eq!(EndpointStatus::Unknown.as_str(), "unknown");
    assert_eq!(EndpointStatus::Ready.as_str(), "ready");
    assert_eq!(EndpointStatus::Unready.as_str(), "unready");
}

fn endpoint(port: u16, protocol: EndpointProtocol, probe: Option<EndpointProbe>) -> AppEndpoint {
    AppEndpoint {
        port,
        protocol,
        probe,
    }
}

fn config(endpoints: [(&str, AppEndpoint); 1]) -> AppConfig {
    let mut config = AppConfig::default();
    for (name, endpoint) in endpoints {
        config.declare(name.to_owned(), endpoint);
    }
    config
}

fn only_plan(config: &AppConfig) -> EndpointProbePlan {
    let mut plans = plan_endpoint_probes(config);
    assert_eq!(plans.len(), 1);
    plans.remove(0)
}

#[test]
fn tcp_and_http_endpoints_default_to_a_connect_probe() {
    let tcp = only_plan(&config([(
        "pg",
        endpoint(5432, EndpointProtocol::Tcp, None),
    )]));
    assert_eq!(tcp.kind, ProbeKind::Tcp { port: 5432 });
    assert_eq!(tcp.interval, DEFAULT_PROBE_INTERVAL);
    assert_eq!(tcp.timeout, DEFAULT_PROBE_TIMEOUT);

    let http = only_plan(&config([(
        "api",
        endpoint(8080, EndpointProtocol::Http, None),
    )]));
    assert_eq!(http.kind, ProbeKind::Tcp { port: 8080 });
}

#[test]
fn an_https_endpoint_defaults_to_a_connect_probe() {
    let https = only_plan(&config([(
        "api",
        endpoint(8443, EndpointProtocol::Https, None),
    )]));
    assert_eq!(https.kind, ProbeKind::Tcp { port: 8443 });
}

#[test]
fn a_declared_http_probe_on_an_https_endpoint_dials_over_tls() {
    let plan = only_plan(&config([(
        "api",
        endpoint(
            8443,
            EndpointProtocol::Https,
            Some(EndpointProbe {
                http: Some("/healthz".to_owned()),
                ..EndpointProbe::default()
            }),
        ),
    )]));
    assert_eq!(
        plan.kind,
        ProbeKind::Http {
            port: 8443,
            path: "/healthz".to_owned(),
            tls: true,
        }
    );
}

#[test]
fn a_declared_http_probe_becomes_an_http_get() {
    let plan = only_plan(&config([(
        "api",
        endpoint(
            8080,
            EndpointProtocol::Http,
            Some(EndpointProbe {
                http: Some("/healthz".to_owned()),
                interval: Some("5s".to_owned()),
                timeout: Some("2s".to_owned()),
                ..EndpointProbe::default()
            }),
        ),
    )]));
    assert_eq!(
        plan.kind,
        ProbeKind::Http {
            port: 8080,
            path: "/healthz".to_owned(),
            tls: false,
        }
    );
    assert_eq!(plan.interval, 5_000);
    assert_eq!(plan.timeout, 2_000);
}

#[test]
fn udp_endpoints_follow_app_readiness_unless_they_declare_a_command() {
    let bare = only_plan(&config([(
        "gossip",
        endpoint(7946, EndpointProtocol::Udp, None),
    )]));
    assert_eq!(bare.kind, ProbeKind::AppReadiness);

    let checked = only_plan(&config([(
        "gossip",
        endpoint(
            7946,
            EndpointProtocol::Udp,
            Some(EndpointProbe {
                command: Some(CommandValue::Argv(vec![
                    "check".to_owned(),
                    "gossip".to_owned(),
                ])),
                ..EndpointProbe::default()
            }),
        ),
    )]));
    match checked.kind {
        ProbeKind::Command(CommandValue::Argv(argv)) => assert_eq!(argv, ["check", "gossip"]),
        other => panic!("expected a command probe, got {other:?}"),
    }
}

#[test]
fn tcp_false_opts_out_of_the_default_connect_probe() {
    let plan = only_plan(&config([(
        "pg",
        endpoint(
            5432,
            EndpointProtocol::Tcp,
            Some(EndpointProbe {
                tcp: Some(false),
                ..EndpointProbe::default()
            }),
        ),
    )]));
    assert_eq!(plan.kind, ProbeKind::AppReadiness);
}

#[test]
fn a_probe_with_only_timing_keeps_the_protocol_default() {
    let plan = only_plan(&config([(
        "pg",
        endpoint(
            5432,
            EndpointProtocol::Tcp,
            Some(EndpointProbe {
                interval: Some("1m".to_owned()),
                ..EndpointProbe::default()
            }),
        ),
    )]));
    assert_eq!(plan.kind, ProbeKind::Tcp { port: 5432 });
    assert_eq!(plan.interval, 60_000);
}

#[test]
fn unparseable_and_zero_timings_fall_back_to_the_defaults() {
    let plan = only_plan(&config([(
        "pg",
        endpoint(
            5432,
            EndpointProtocol::Tcp,
            Some(EndpointProbe {
                tcp: Some(true),
                interval: Some("soon".to_owned()),
                timeout: Some("0s".to_owned()),
                ..EndpointProbe::default()
            }),
        ),
    )]));
    assert_eq!(plan.interval, DEFAULT_PROBE_INTERVAL);
    assert_eq!(plan.timeout, DEFAULT_PROBE_TIMEOUT);
}

#[test]
fn plans_are_ordered_by_endpoint_name() {
    let mut config = AppConfig::default();
    for name in ["pg", "api", "metrics"] {
        config.declare(name.to_owned(), endpoint(5432, EndpointProtocol::Tcp, None));
    }
    let names: Vec<_> = plan_endpoint_probes(&config)
        .into_iter()
        .map(|plan| plan.endpoint)
        .collect();
    assert_eq!(names, ["api", "metrics", "pg"]);
    assert!(plan_endpoint_probes(&AppConfig::default()).is_empty());

    // A name that is declared again is replaced.
    config.declare("api".to_owned(), endpoint(80, EndpointProtocol::Tcp, None));
    assert_eq!(config.endpoints().len(), 3);
    assert_eq!(
        plan_endpoint_probes(&config)[0].kind,
        ProbeKind::Tcp { port: 80 }
    );
}

#[test]
fn durations_are_whole_numbers_of_a_unit() {
    assert_eq!(parse_duration("250ms"), Some(250));
    assert_eq!(parse_duration("3s"), Some(3_000));
    assert_eq!(parse_duration("2m"), Some(120_000));
    assert_eq!(parse_duration("1h"), Some(3_600_000));
    assert_eq!(parse_duration("h"), None);
    assert_eq!(parse_duration(""), None);
    assert_eq!(parse_duration("10"), None);
    assert_eq!(parse_duration("99999999999999999999s"), None);
    assert_eq!(parse_duration("18446744073709551615s"), None);
}

fn ctx_on(host: &str) -> ProbeContext {
    ProbeContext {
        host: Some(host.to_owned()),
        ..ProbeContext::default()
    }
}

#[test]
fn an_unknown_node_address_falls_back_to_loopback() {
    assert_eq!(
        ProbeContext::default().probe_targets(&vec![]),
        [FALLBACK_PROBE_HOST]
    );
    assert_eq!(ctx_on("10.0.0.7").probe_targets(&vec![]), ["10.0.0.7"]);
}

/// A node that is delivered on no other address probes its own, once.
#[test]
fn an_endpoint_delivered_nowhere_else_probes_the_node_address_alone() {
    assert_eq!(
        ctx_on("10.0.0.7").probe_targets(&Vec::new()),
        ["10.0.0.7"]
    );
}

/// The delivery addresses follow the node's own in their order, and none is dialed twice.
#[test]
fn delivery_addresses_extend_the_node_address_without_repeating_it() {
    let delivered = ["2001:db8::5", "10.0.0.7", "203.0.113.5"]
        .into_iter()
        .map(str::to_owned)
        .collect();
    assert_eq!(
        ctx_on("10.0.0.7").probe_targets(&delivered),
        ["10.0.0.7", "2001:db8::5", "203.0.113.5"]
    );
}

/// An address that is drawn under a running app is dialed by the next probe.
#[test]
fn delivery_addresses_are_read_on_every_probe() {
    let drawn = Cell::new(false);
    let delivered_on = |_endpoint: &str| {
        if drawn.get() {
            vec!["2001:db8::5".to_owned()]
        } else {
            Vec::new()
        }
    };
    let ctx = ctx_on("10.0.0.7");
    assert_eq!(ctx.probe_targets(&delivered_on("pg")), ["10.0.0.7"]);
    drawn.set(true);
    assert_eq!(
        ctx.probe_targets(&delivered_on("pg")),
        ["10.0.0.7", "2001:db8::5"]
    );
}

#[test]
fn a_probe_passes_only_where_every_address_answers() {
    assert_eq!(on_every_address(&vec![]), Ok(()));
    assert_eq!(on_every_address(&vec![Ok(()), Ok(())]), Ok(()));
    assert_eq!(
        on_every_address(&vec![
            Ok(()),
            Err("first".to_owned()),
            Err("second".to_owned())
        ]),
        Err("first".to_owned())
    );
}

#[test]
fn a_verdict_names_what_was_dialed() {
    assert_eq!(tcp_verdict("10.0.0.7", 80, &Dialed::Connected), Ok(()));
    assert_eq!(
        tcp_verdict("10.0.0.7", 80, &Dialed::Refused("no".to_owned())),
        Err("connect to 10.0.0.7 port 80 failed: no".to_owned())
    );
    assert_eq!(
        tcp_verdict("10.0.0.7", 80, &Dialed::TimedOut),
        Err("connect to 10.0.0.7 port 80 timed out".to_owned())
    );
    for status in [200, 204, 302, 399] {
        assert_eq!(http_verdict("h", "/x", &Got::Answered(status)), Ok(()));
    }
    assert_eq!(
        http_verdict("h", "/x", &Got::Answered(500)),
        Err("http probe /x on h returned 500".to_owned())
    );
    assert!(http_verdict("h", "/x", &Got::Answered(199)).is_err());
    assert_eq!(
        http_verdict("h", "/x", &Got::TimedOut),
        Err("http probe /x on h timed out".to_owned())
    );
    assert_eq!(
        http_verdict("h", "/x", &Got::Failed("no".to_owned())),
        Err("http probe /x on h failed: no".to_owned())
    );
    assert_eq!(
        command_verdict(&Ran::TimedOut),
        Err("probe command timed out".to_owned())
    );
    let exited = |success| Ran::Exited {
        success,
        status: "exit status: 3".to_owned(),
    };
    assert_eq!(command_verdict(&exited(true)), Ok(()));
    assert_eq!(
        command_verdict(&exited(false)),
        Err("probe command exited with exit status: 3".to_owned())
    );
    assert_eq!(
        command_verdict(&Ran::Unreadable("x".to_owned())),
        Err("probe command: x".to_owned())
    );
    assert_eq!(
        command_verdict(&Ran::NotStarted("x".to_owned())),
        Err("probe command failed to start: x".to_owned())
    );
    assert_eq!(
        command_verdict(&Ran::Lost("x".to_owned())),
        Err("probe command failed: x".to_owned())
    );
}

#[test]
fn an_address_with_a_colon_is_put_in_brackets() {
    assert_eq!(
        probe_url("10.0.0.7", 8080, "/healthz", false),
        "http://10.0.0.7:8080/healthz"
    );
    assert_eq!(
        probe_url("2001:db8::5", 8443, "/", true),
        "https://[2001:db8::5]:8443/"
    );
}

#[test]
fn an_app_readiness_endpoint_reports_ready_once_and_parks() {
    let transition = EndpointTransition::ready_with_the_app("app", "gossip");
    assert_eq!(transition.status, EndpointStatus::Ready);
    assert_eq!(transition.seq, 0);
    assert_eq!(transition.reason, "");
    let mut state = ProbeState::default();
    let change = state.observe(Ok(())).expect("change");
    let of = EndpointTransition::of("app", "gossip", change);
    assert_eq!(of, transition);
}

/// Every change of status is told once, under its own number.
#[test]
fn changes_are_told_once_in_their_order() {
    let passed = [true, false, false, false, false, true, true, false, false, true, false, false, false];
    let mut state = ProbeState::default();
    let mut told = Vec::new();
    for (at, passed) in passed.into_iter().enumerate() {
        let before = (state.status(), state.transitions());
        let change = state.observe(if passed { Ok(()) } else { failure() });
        assert_eq!(change.is_some(), state.status() != before.0);
        assert_eq!(state.transitions(), before.1 + u64::from(change.is_some()));
        if let Some(change) = change {
            assert_eq!(change.reason.is_empty(), passed);
            told.push((at, change.status, change.seq));
        }
    }
    assert_eq!(
        told,
        [
            (0, EndpointStatus::Ready, 0),
            (3, EndpointStatus::Unready, 1),
            (5, EndpointStatus::Ready, 2),
            (12, EndpointStatus::Unready, 3),
        ]
    );
}
