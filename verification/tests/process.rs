//! How an app is asked to end, and how its end is read.

use orc_app::error::CliError;
use orc_app::process::{
    classify_child_exit, log_line, service_exit_code, service_exit_status, signal_target, trim_line, ChildExitOutcome,
    ExitInfo, LogStream, ServiceReport, ServiceWatch, StopAsk, StopSignal,
};

fn exited(code: i32) -> ExitInfo {
    ExitInfo {
        code: Some(code),
        signal: None,
    }
}

fn killed(signal: i32) -> ExitInfo {
    ExitInfo {
        code: None,
        signal: Some(signal),
    }
}

#[test]
fn classify_child_exit_maps_status() {
    let ok = classify_child_exit(exited(0));
    assert_eq!(ok.outcome, ChildExitOutcome::Completed);
    assert_eq!(ok.cause, "");
    assert_eq!(ok.reason, "completed");
    assert_eq!(ok.exit_code, Some(0));

    let bad = classify_child_exit(exited(1));
    assert_eq!(bad.outcome, ChildExitOutcome::Failed);
    assert_eq!(bad.cause, "exit-error");
    assert_eq!(bad.exit_code, Some(1));
    assert_eq!(bad.reason, "app exited with code 1");

    let killed_hard = classify_child_exit(killed(9));
    assert_eq!(killed_hard.outcome, ChildExitOutcome::Failed);
    assert_eq!(killed_hard.cause, "oom-killed");
    assert_eq!(killed_hard.reason, "killed by signal 9");
    assert_eq!(killed_hard.exit_code, None);

    let term = classify_child_exit(killed(15));
    assert_eq!(term.cause, "signal");
    assert_eq!(term.reason, "killed by signal 15");

    let odd = classify_child_exit(ExitInfo {
        code: None,
        signal: None,
    });
    assert_eq!(odd.reason, "app exited abnormally");
    assert_eq!(odd.cause, "exit-error");
    assert_eq!(
        classify_child_exit(exited(-7)).reason,
        "app exited with code -7"
    );
}

#[test]
fn a_stop_signal_is_read_by_any_of_its_names() {
    for signal in [
        StopSignal::Term,
        StopSignal::Int,
        StopSignal::Hup,
        StopSignal::Usr1,
        StopSignal::Usr2,
    ] {
        assert_eq!(StopSignal::parse(signal.as_str()).ok(), Some(signal));
    }
    assert_eq!(StopSignal::parse(" usr1 ").ok(), Some(StopSignal::Usr1));
    assert_eq!(StopSignal::parse("sigint").ok(), Some(StopSignal::Int));
    assert_eq!(StopSignal::parse("SigTerm").ok(), Some(StopSignal::Term));
    assert_eq!(StopSignal::parse("sIgUsR2").ok(), Some(StopSignal::Usr2));
    assert!(StopSignal::parse("SIGSIGTERM").is_err());
    assert_eq!(StopSignal::default(), StopSignal::Term);
    assert_eq!(
        StopSignal::parse("SIGKILL").expect_err("not allowed"),
        CliError::Usage(
            "stop signal \"SIGKILL\" is not one of SIGTERM, SIGINT, SIGHUP, SIGUSR1, SIGUSR2"
                .to_owned()
        )
    );
    assert_ne!(StopAsk::Signal(StopSignal::Term), StopAsk::Nothing);
}

/// Only the group that a process leads is signalled as a whole.
#[test]
fn a_group_is_signalled_only_by_its_leader() {
    assert_eq!(signal_target(42, 42), Some(-42));
    assert_eq!(signal_target(42, 7), Some(42));
    assert_eq!(signal_target(42, -1), Some(42));
    assert_eq!(signal_target(u32::MAX, 7), None);
}

#[test]
fn a_services_end_is_read_from_its_report() {
    assert_eq!(service_exit_status(Some(3), None, true), 3 << 8);
    assert_eq!(service_exit_status(Some(256 + 3), None, true), 3 << 8);
    assert_eq!(service_exit_status(Some(3), Some(15), true), 15);
    assert_eq!(service_exit_status(None, None, true), 1 << 8);
    assert_eq!(service_exit_status(None, None, false), 0);
    assert_eq!(service_exit_status(Some(-1), None, false), 255 << 8);
}

/// Where exits carry no signal, a service's whole code is its exit code.
#[test]
fn a_whole_exit_code_is_kept_where_exits_carry_no_signal() {
    assert_eq!(service_exit_code(Some(3), None, true), 3);
    assert_eq!(service_exit_code(Some(256 + 3), None, true), 259);
    assert_eq!(service_exit_code(Some(i32::MAX), None, false), 0x7fff_ffff);
    assert_eq!(service_exit_code(Some(-1), None, false), 1);
    assert_eq!(service_exit_code(Some(3), Some(15), true), 0);
    assert_eq!(service_exit_code(None, None, true), 1);
    assert_eq!(service_exit_code(None, None, false), 0);
}

#[test]
fn a_service_that_restarts_has_not_ended() {
    let report = |main_pid, terminal| ServiceReport {
        main_pid,
        terminal,
        failed: true,
        exit_code: None,
        exit_signal: None,
    };
    let mut watch = ServiceWatch::new(Some(1));
    assert_eq!(watch.observe(&report(None, false)), None);
    assert_eq!(watch.pid(), Some(1));
    assert_eq!(watch.observe(&report(Some(2), false)), None);
    assert_eq!(watch.pid(), Some(2));
    assert_eq!(watch.observe(&report(None, true)), Some(256));
    assert_eq!(watch.pid(), Some(2));
}

#[test]
fn a_line_is_logged_once_it_is_complete() {
    assert_eq!(trim_line(b"a\r\n\n"), b"a");
    assert_eq!(trim_line(b"\n"), b"");
    assert_eq!(log_line(b"hello\n", false), Some("hello".to_owned()));
    assert_eq!(log_line(b"hel", false), None);
    assert_eq!(log_line(b"hel", true), Some("hel".to_owned()));
    assert_eq!(log_line(b"", true), None);
    assert_eq!(log_line(b"\xff\n", false), Some("\u{fffd}".to_owned()));
    assert_eq!(LogStream::Stdout.as_str(), "stdout");
    assert_eq!(LogStream::Stderr.as_str(), "stderr");
}
