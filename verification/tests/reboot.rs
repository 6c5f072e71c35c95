//! Restarts that a phase asks for.

use orc_app::reboot::{
    clear, is_restart_form, is_shim_name, marker_path, may_reboot, run_shim_args, shim_recorded,
    PhaseMarker, PhaseOutcome, PhaseReboot, RebootAction, RebootExecutor, ShimReply, ShimStep,
    MAX_PHASE_REBOOTS,
};

const STATE: &str = "/var/lib/orc";
const REQUEST: &str = "/var/lib/orc/reboot-request";

fn marker(app: &str, phase: &str, count: u32, requested: bool) -> PhaseMarker {
    PhaseMarker {
        app: app.to_owned(),
        version: "1.0".to_owned(),
        phase: phase.to_owned(),
        reboot_count: count,
        requested,
    }
}

/// Enters a phase with what stands on disk, and puts the new marker there.
fn enter(disk: &mut Option<PhaseMarker>) -> PhaseReboot {
    let (reboot, marker) = PhaseReboot::enter(STATE, "demo", "1.0", "install", disk.take());
    *disk = Some(marker);
    reboot
}

/// Closes a pass, and leaves on disk what it leaves.
fn finish(reboot: &PhaseReboot, recorded: bool, disk: &mut Option<PhaseMarker>) -> PhaseOutcome {
    let (outcome, marker) = reboot.finish(recorded, disk.take());
    *disk = marker;
    outcome
}

#[test]
fn may_reboot_stops_at_the_cap() {
    assert!(may_reboot(0));
    assert!(may_reboot(MAX_PHASE_REBOOTS - 1));
    // At and beyond the cap the phase must complete without another restart.
    assert!(!may_reboot(MAX_PHASE_REBOOTS));
    assert!(!may_reboot(MAX_PHASE_REBOOTS + 1));
}

#[test]
fn entering_a_fresh_phase_starts_on_a_full_budget() {
    let mut disk = None;
    let reboot = enter(&mut disk);
    assert_eq!(reboot.reboot_count(), 0);
    assert_eq!(reboot.request_file(), Some(REQUEST));
    assert_eq!(reboot.deny_reason(), None);
    assert_eq!(disk, Some(marker("demo", "install", 0, false)));
    assert_eq!(marker_path(STATE), "/var/lib/orc/phase-reboot.json");
}

#[test]
fn a_recorded_request_charges_the_counter_and_marks_the_marker() {
    let mut disk = None;
    let reboot = enter(&mut disk);
    assert_eq!(
        finish(&reboot, true, &mut disk),
        PhaseOutcome::RebootRequested { reboot_count: 1 }
    );
    assert_eq!(disk, Some(marker("demo", "install", 1, true)));

    // Re-entry after the restart resumes the same execution at the charged count.
    let resumed = enter(&mut disk);
    assert_eq!(resumed.reboot_count(), 1);
    assert_eq!(disk, Some(marker("demo", "install", 1, false)));

    // A marker that went away is written without a name.
    let (outcome, written) = resumed.finish(true, None);
    assert_eq!(outcome, PhaseOutcome::RebootRequested { reboot_count: 2 });
    let written = written.expect("marker");
    assert_eq!(written.app, "");
    assert_eq!(written.reboot_count, 2);
    assert!(written.requested);
}

#[test]
fn a_pass_that_asks_for_nothing_retires_the_marker() {
    let mut disk = None;
    let reboot = enter(&mut disk);
    assert_eq!(finish(&reboot, false, &mut disk), PhaseOutcome::Completed);
    assert_eq!(disk, None);
}

#[test]
fn a_restart_taken_behind_the_shims_back_is_charged_on_re_entry() {
    // In flight with nothing recorded: the phase rebooted by absolute path or the machine
    // simply went away.
    let mut disk = Some(marker("demo", "install", 1, false));
    let reboot = enter(&mut disk);
    assert_eq!(
        reboot.reboot_count(),
        2,
        "the unannounced restart is charged"
    );
    assert_eq!(disk, Some(marker("demo", "install", 2, false)));
    let mut disk = Some(marker("demo", "install", u32::MAX, false));
    assert_eq!(enter(&mut disk).reboot_count(), u32::MAX);
}

#[test]
fn another_phase_execution_starts_on_its_own_budget() {
    let mut disk = Some(marker("os-update", "install", 3, true));
    let reboot = enter(&mut disk);
    assert_eq!(
        reboot.reboot_count(),
        0,
        "a different app gets a full budget"
    );
}

#[test]
fn at_the_cap_the_phase_gets_no_request_file() {
    let mut disk = Some(marker("demo", "install", MAX_PHASE_REBOOTS, true));
    let reboot = enter(&mut disk);
    assert_eq!(reboot.reboot_count(), MAX_PHASE_REBOOTS);
    assert_eq!(
        reboot.request_file(),
        None,
        "at the cap the shim has nowhere to record a request"
    );
    // And with nothing to consume, the pass ends normally however loudly the shim refused
    // inside it.
    assert_eq!(finish(&reboot, true, &mut disk), PhaseOutcome::Completed);
}

/// However often a phase asks, it is granted the limit and no more.
#[test]
fn a_phase_that_keeps_asking_is_granted_the_limit() {
    let mut disk = None;
    let mut granted = 0;
    loop {
        let reboot = enter(&mut disk);
        let asked = reboot.request_file().is_some();
        match finish(&reboot, asked, &mut disk) {
            PhaseOutcome::RebootRequested { .. } => granted += 1,
            PhaseOutcome::Completed => break,
        }
    }
    assert_eq!(granted, MAX_PHASE_REBOOTS);
}

#[test]
fn a_failed_pass_abandons_its_request() {
    let mut disk = None;
    let reboot = enter(&mut disk);
    assert_eq!(
        reboot.abandon(),
        (
            "/var/lib/orc/phase-reboot.json".to_owned(),
            REQUEST.to_owned()
        )
    );
    assert_eq!(clear(STATE), reboot.abandon());
}

#[test]
fn executor_reads_the_fake_mode_from_the_environment() {
    assert_eq!(RebootExecutor::parse(""), RebootExecutor::Real);
    assert_eq!(RebootExecutor::parse("real"), RebootExecutor::Real);
    assert_eq!(
        RebootExecutor::parse("fake:/tmp/reboots"),
        RebootExecutor::Fake("/tmp/reboots".to_owned())
    );
    assert_eq!(RebootExecutor::from_env(None), RebootExecutor::Real);
    assert_eq!(
        RebootExecutor::from_env(Some("fake:x")),
        RebootExecutor::Fake("x".to_owned())
    );
}

#[test]
fn the_fake_executor_records_a_line_per_reboot() {
    let executor = RebootExecutor::Fake("/tmp/reboots".to_owned());
    assert_eq!(executor.execute(true), RebootAction::Recorded);
    assert_eq!(RebootExecutor::Real.execute(true), RebootAction::Rebooting);
    assert_eq!(RebootExecutor::Real.execute(false), RebootAction::Failed);
}

#[test]
fn the_fake_executor_reports_a_path_it_cannot_write() {
    let executor = RebootExecutor::Fake("/missing/reboots".to_owned());
    assert_eq!(executor.execute(false), RebootAction::Failed);
}

struct CoreRun {
    code: i32,
    out: String,
    err: String,
    request: Option<String>,
}

/// Runs the command over `args`, with or without a granted request file.
fn run_core(args: &[&str], with_request: bool) -> CoreRun {
    run_core_denied(args, with_request, None)
}

/// The same, for a phase the runtime refused outright with its own reason.
fn run_core_denied(args: &[&str], with_request: bool, deny: Option<&str>) -> CoreRun {
    let args: Vec<String> = args.iter().map(|arg| (*arg).to_owned()).collect();
    let request_file = if with_request { Some(REQUEST) } else { None };
    let (reply, request) = match run_shim_args(&args, request_file, deny) {
        ShimStep::Done(reply) => (reply, None),
        ShimStep::Record { path, text } => {
            assert_eq!(path, REQUEST);
            (shim_recorded(&path, None), Some(text))
        }
    };
    let ShimReply { code, out, err } = reply;
    CoreRun {
        code,
        out,
        err,
        request,
    }
}

#[test]
fn the_shim_core_accepts_every_restart_spelling_anywhere_in_the_arguments() {
    for args in [
        vec!["/r"],
        vec!["/R"],
        vec!["/r", "/t", "0"],
        vec!["/t", "0", "/r"],
        vec!["-r", "now"],
        vec!["now", "-r"],
        vec!["--reboot", "+1"],
    ] {
        let run = run_core(&args, true);
        assert_eq!(
            run.code, 0,
            "shutdown {args:?} must be accepted: {}",
            run.err
        );
        assert_eq!(
            run.out,
            "orc: reboot requested; the runtime restarts this node after the phase\n"
        );
        assert_eq!(
            run.request.as_deref(),
            Some(format!("{}\n", args.join(" ")).as_str()),
            "the request records the literal arguments"
        );
    }
}

#[test]
fn the_shim_core_refuses_every_power_off_spelling() {
    for args in [
        vec!["/s"],
        vec!["/s", "/t", "0"],
        vec!["-h", "now"],
        vec!["-P", "now"],
        vec!["--halt"],
        vec!["-p"],
        vec![],
    ] {
        let run = run_core(&args, true);
        assert_eq!(run.code, 1, "shutdown {args:?} must be refused");
        assert_eq!(run.err, "orc: phase may not power off the node\n");
        assert!(run.out.is_empty(), "a refusal says nothing on stdout");
        assert_eq!(run.request, None, "a refusal records nothing");
    }
    assert!(!is_restart_form("-R"));
    assert!(is_restart_form("/R"));
}

#[test]
fn the_shim_core_refuses_a_restart_once_the_budget_is_gone() {
    let run = run_core(&["/r", "/t", "0"], false);
    assert_eq!(run.code, 1);
    assert_eq!(run.err, "orc: reboot budget exhausted; request refused\n");
    assert!(run.out.is_empty());
}

/// A phase that may not restart the node at all is refused with its own reason.
#[test]
fn the_shim_core_refuses_a_phase_that_may_not_restart_at_all() {
    let run = run_core_denied(
        &["-r", "now"],
        false,
        Some("a stop hook may not restart the node"),
    );
    assert_eq!(run.code, 1);
    assert_eq!(
        run.err,
        "orc: a stop hook may not restart the node; request refused\n"
    );
    assert!(run.out.is_empty());
    assert_eq!(run.request, None);
}

/// A phase that is refused gets the commands and no request file.
#[test]
fn refusing_plumbing_installs_the_shim_and_grants_no_request() {
    let reboot = PhaseReboot::refusing(STATE, "a stop hook may not restart the node");
    assert_eq!(reboot.shim_dir(), "/var/lib/orc/reboot-shim");
    assert_eq!(reboot.request_file(), None);
    assert_eq!(
        reboot.deny_reason(),
        Some("a stop hook may not restart the node")
    );
    assert_eq!(reboot.reboot_count(), 0);
}

#[test]
fn a_request_that_cannot_be_written_is_not_reported_as_accepted() {
    let reply = shim_recorded("/missing/reboot-request", Some("no such directory"));
    assert_eq!(reply.code, 1);
    assert!(
        reply.out.is_empty(),
        "the phase must not be told the reboot took"
    );
    assert_eq!(
        reply.err,
        "orc: reboot request could not be recorded: /missing/reboot-request: no such directory\n"
    );
}

#[test]
fn a_runtime_invoked_as_itself_is_not_the_shim() {
    assert!(!is_shim_name("orc"));
    assert!(is_shim_name("shutdown"));
    assert!(is_shim_name("SHUTDOWN"));
}
