//! Supervised app processes: how an app is asked to end, and how its end is read.

use crate::error::{misused, CliError};
use crate::outside::{lossy_text, utf8_lossy};
use crate::text::{
    cat2, cat3, chars_of, debug_quoted, owned, quoted, same_chars, signed_decimal,
    signed_decimal_of, trim, trimmed, upper, uppered,
};
use vstd::prelude::*;

verus! {

// ---------------------------------------------------------------------------
// Asking an app to end
// ---------------------------------------------------------------------------

/// The signal that an app is asked to end with.
#[derive(Debug, Clone, Copy, PartialEq, Eq, Structural)]
pub enum StopSignal {
    Term,
    Int,
    Hup,
    Usr1,
    Usr2,
}

impl Default for StopSignal {
    fn default() -> (r: Self)
        ensures
            r == StopSignal::Term,
    {
        StopSignal::Term
    }
}

/// The name of a signal without its prefix.
pub open spec fn bare_name(signal: StopSignal) -> Seq<char> {
    match signal {
        StopSignal::Term => "TERM"@,
        StopSignal::Int => "INT"@,
        StopSignal::Hup => "HUP"@,
        StopSignal::Usr1 => "USR1"@,
        StopSignal::Usr2 => "USR2"@,
    }
}

/// The name of a signal.
pub open spec fn signal_name(signal: StopSignal) -> Seq<char> {
    match signal {
        StopSignal::Term => "SIGTERM"@,
        StopSignal::Int => "SIGINT"@,
        StopSignal::Hup => "SIGHUP"@,
        StopSignal::Usr1 => "SIGUSR1"@,
        StopSignal::Usr2 => "SIGUSR2"@,
    }
}

/// Whether a text in capitals names a signal, with or without the prefix.
pub open spec fn names(name: Seq<char>, signal: StopSignal) -> bool {
    name == signal_name(signal) || name == bare_name(signal)
}

/// The signal that a text names, in any case.
pub open spec fn signal_of(value: Seq<char>) -> Option<StopSignal> {
    let name = upper(trim(value));
    if names(name, StopSignal::Term) {
        Some(StopSignal::Term)
    } else if names(name, StopSignal::Int) {
        Some(StopSignal::Int)
    } else if names(name, StopSignal::Hup) {
        Some(StopSignal::Hup)
    } else if names(name, StopSignal::Usr1) {
        Some(StopSignal::Usr1)
    } else if names(name, StopSignal::Usr2) {
        Some(StopSignal::Usr2)
    } else {
        None
    }
}

/// Whether some characters are the one text or the other.
fn is_either(chars: &[char], a: &str, b: &str) -> (r: bool)
    ensures
        r == (chars@ == a@ || chars@ == b@),
{
    same_chars(chars, &chars_of(a)) || same_chars(chars, &chars_of(b))
}

impl StopSignal {
    /// Reads a signal's name, with or without its prefix and in any case. Space around it is
    /// left out.
    pub fn parse(value: &str) -> (r: Result<StopSignal, CliError>)
        ensures
            match r {
                Ok(signal) => signal_of(value@) == Some(signal),
                Err(e) => signal_of(value@) is None && e@ == misused(
                    "stop signal "@ + debug_quoted(value@)
                        + " is not one of SIGTERM, SIGINT, SIGHUP, SIGUSR1, SIGUSR2"@,
                ),
            },
    {
        let name = uppered(&trimmed(&chars_of(value)));
        if is_either(&name, "SIGTERM", "TERM") {
            Ok(StopSignal::Term)
        } else if is_either(&name, "SIGINT", "INT") {
            Ok(StopSignal::Int)
        } else if is_either(&name, "SIGHUP", "HUP") {
            Ok(StopSignal::Hup)
        } else if is_either(&name, "SIGUSR1", "USR1") {
            Ok(StopSignal::Usr1)
        } else if is_either(&name, "SIGUSR2", "USR2") {
            Ok(StopSignal::Usr2)
        } else {
            Err(
                CliError::Usage(
                    cat3(
                        "stop signal ",
                        quoted(value).as_str(),
                        " is not one of SIGTERM, SIGINT, SIGHUP, SIGUSR1, SIGUSR2",
                    ),
                ),
            )
        }
    }

    /// The name of the signal.
    pub fn as_str(self) -> (r: &'static str)
        ensures
            r@ == signal_name(self),
    {
        match self {
            StopSignal::Term => "SIGTERM",
            StopSignal::Int => "SIGINT",
            StopSignal::Hup => "SIGHUP",
            StopSignal::Usr1 => "SIGUSR1",
            StopSignal::Usr2 => "SIGUSR2",
        }
    }
}

/// How an app was asked to end.
#[derive(Debug, Clone, Copy, PartialEq, Eq)]
pub enum StopAsk {
    /// The signal was delivered to the app's process group.
    Signal(StopSignal),
    /// The service manager was asked to stop the app.
    Manager,
    /// Nothing could be asked.
    Nothing,
}

/// The process id that a signal is sent to, if there is one.
pub open spec fn target_of(pid: u32, group: i32) -> Option<int> {
    if pid > i32::MAX {
        None
    } else if group == pid {
        Some(-(pid as int))
    } else {
        Some(pid as int)
    }
}

/// The process id that a signal is sent to: the whole group where the process leads one, else
/// the process alone. The group of a process that does not lead one is somebody else's.
pub fn signal_target(pid: u32, group: i32) -> (r: Option<i32>)
    ensures
        match r {
            Some(target) => target_of(pid, group) == Some(target as int),
            None => target_of(pid, group) is None,
        },
        pid > i32::MAX ==> r is None,
        pid <= i32::MAX && group == pid ==> r == Some((-(pid as int)) as i32),
        pid <= i32::MAX && group != pid ==> r == Some(pid as i32),
{
    if pid > 0x7fff_ffff {
        return None;
    }
    let target: i32 = pid as i32;
    if group == target {
        Some(-target)
    } else {
        Some(target)
    }
}

// ---------------------------------------------------------------------------
// Logs
// ---------------------------------------------------------------------------

/// The stream that a log line came from.
#[derive(Debug, Clone, Copy, PartialEq, Eq, Structural)]
pub enum LogStream {
    Stdout,
    Stderr,
}

impl LogStream {
    /// The name of the stream.
    pub fn as_str(self) -> (r: &'static str)
        ensures
            r@ == (match self {
                LogStream::Stdout => "stdout"@,
                LogStream::Stderr => "stderr"@,
            }),
    {
        match self {
            LogStream::Stdout => "stdout",
            LogStream::Stderr => "stderr",
        }
    }
}

/// A line without the line ends behind it.
pub open spec fn without_line_ends(line: Seq<u8>) -> Seq<u8>
    decreases line.len(),
{
    if line.len() > 0 && (line.last() == 10 || line.last() == 13) {
        without_line_ends(line.drop_last())
    } else {
        line
    }
}

/// A line without the line ends behind it.
pub fn trim_line(line: &[u8]) -> (r: Vec<u8>)
    ensures
        r@ == without_line_ends(line@),
{
    let mut end: usize = line.len();
    assert(line@.subrange(0, end as int) =~= line@);
    while end > 0 && (line[end - 1] == 10 || line[end - 1] == 13)
        invariant
            end <= line.len(),
            without_line_ends(line@) == without_line_ends(line@.subrange(0, end as int)),
        decreases end,
    {
        assert(line@.subrange(0, end as int).drop_last() =~= line@.subrange(0, end - 1));
        end = end - 1;
    }
    let mut out: Vec<u8> = Vec::new();
    for i in 0..end
        invariant
            end <= line.len(),
            out@ == line@.subrange(0, i as int),
    {
        out.push(line[i]);
        assert(out@ =~= line@.subrange(0, i + 1));
    }
    out
}

/// The lines of a stream as they are logged: the whole ones, and what is left when the stream
/// ends.
pub open spec fn logged(gathered: Seq<u8>, ended: bool) -> Option<Seq<char>> {
    if (gathered.len() > 0 && gathered.last() == 10) || (ended && gathered.len() > 0) {
        Some(lossy_text(without_line_ends(gathered)))
    } else {
        None
    }
}

/// The line to log after a read that went on to the next line end or to the end of the stream.
/// `None` while the line is not complete.
pub fn log_line(gathered: &[u8], ended: bool) -> (r: Option<String>)
    ensures
        match r {
            Some(line) => logged(gathered@, ended) == Some(line@),
            None => logged(gathered@, ended) is None,
        },
{
    let size: usize = gathered.len();
    if size > 0 && (ended || gathered[size - 1] == 10) {
        Some(utf8_lossy(&trim_line(gathered)))
    } else {
        None
    }
}

// ---------------------------------------------------------------------------
// Reading an exit
// ---------------------------------------------------------------------------

/// How a process ended: by a signal, or with a code.
#[derive(Debug, Clone, Copy, PartialEq, Eq, Structural)]
pub struct ExitInfo {
    /// The code that the process exited with.
    pub code: Option<i32>,
    /// The signal that ended it.
    pub signal: Option<i32>,
}

impl ExitInfo {
    /// Whether the process exited with code zero.
    pub fn success(self) -> (r: bool)
        ensures
            r == (self.code == Some(0i32)),
    {
        match self.code {
            Some(code) => code == 0,
            None => false,
        }
    }
}

/// Whether a supervised process completed.
#[derive(Debug, Clone, Copy, PartialEq, Eq, Structural)]
pub enum ChildExitOutcome {
    Completed,
    Failed,
}

/// The end of a supervised process, as it is reported.
#[derive(Debug, PartialEq, Eq)]
pub struct ChildExit {
    pub outcome: ChildExitOutcome,
    /// Why, in words.
    pub reason: String,
    /// The code of a process that exited by itself; none where a signal ended it.
    pub exit_code: Option<i32>,
    /// The cause, as it is reported: empty, `exit-error`, `oom-killed` or `signal`.
    pub cause: &'static str,
}

/// The end of a supervised process as a value.
pub struct ExitView {
    pub outcome: ChildExitOutcome,
    pub reason: Seq<char>,
    pub exit_code: Option<i32>,
    pub cause: Seq<char>,
}

impl View for ChildExit {
    type V = ExitView;

    open spec fn view(&self) -> ExitView {
        ExitView {
            outcome: self.outcome,
            reason: self.reason@,
            exit_code: self.exit_code,
            cause: self.cause@,
        }
    }
}

/// What is reported of an exit. The signal that the kernel's memory killer sends is reported as
/// its doing.
pub open spec fn classified(exit: ExitInfo) -> ExitView {
    if exit.code == Some(0i32) {
        ExitView {
            outcome: ChildExitOutcome::Completed,
            reason: "completed"@,
            exit_code: Some(0),
            cause: ""@,
        }
    } else {
        match exit.signal {
            Some(signal) => ExitView {
                outcome: ChildExitOutcome::Failed,
                reason: "killed by signal "@ + signed_decimal(signal as int),
                exit_code: None,
                cause: if signal == 9 {
                    "oom-killed"@
                } else {
                    "signal"@
                },
            },
            None => ExitView {
                outcome: ChildExitOutcome::Failed,
                reason: match exit.code {
                    Some(code) => "app exited with code "@ + signed_decimal(code as int),
                    None => "app exited abnormally"@,
                },
                exit_code: exit.code,
                cause: "exit-error"@,
            },
        }
    }
}

/// What is reported of the exit of a supervised process.
pub fn classify_child_exit(exit: ExitInfo) -> (r: ChildExit)
    ensures
        r@ == classified(exit),
{
    if exit.success() {
        return ChildExit {
            outcome: ChildExitOutcome::Completed,
            reason: owned("completed"),
            exit_code: Some(0),
            cause: "",
        };
    }
    if let Some(signal) = exit.signal {
        let cause = if signal == 9 {
            "oom-killed"
        } else {
            "signal"
        };
        return ChildExit {
            outcome: ChildExitOutcome::Failed,
            reason: cat2("killed by signal ", signed_decimal_of(signal as i64).as_str()),
            exit_code: None,
            cause,
        };
    }
    let reason = match exit.code {
        Some(code) => cat2("app exited with code ", signed_decimal_of(code as i64).as_str()),
        None => owned("app exited abnormally"),
    };
    ChildExit {
        outcome: ChildExitOutcome::Failed,
        reason,
        exit_code: exit.code,
        cause: "exit-error",
    }
}

/// How a wait status of the platform says that a process ended. The low seven bits hold the
/// signal, or nothing where the process exited by itself; the code stands in the next byte.
pub open spec fn wait_status(raw: int) -> ExitInfo {
    if raw % 128 == 0 {
        ExitInfo { code: Some((raw / 256 % 256) as i32), signal: None }
    } else if raw % 128 == 127 {
        ExitInfo { code: None, signal: None }
    } else {
        ExitInfo { code: None, signal: Some((raw % 128) as i32) }
    }
}

/// The wait status of a service that ended: its signal, else its code, else whether it failed.
pub open spec fn service_status(
    exit_code: Option<i32>,
    exit_signal: Option<i32>,
    failed: bool,
) -> int {
    match exit_signal {
        Some(signal) => (signal as int) % 128,
        None => match exit_code {
            Some(code) => 256 * ((code as int) % 256),
            None => if failed {
                256
            } else {
                0
            },
        },
    }
}

/// The wait status of a service that ended, from what its manager reports: a signal, else a
/// code, else whether it failed.
pub fn service_exit_status(exit_code: Option<i32>, exit_signal: Option<i32>, failed: bool) -> (r:
    i32)
    ensures
        r == service_status(exit_code, exit_signal, failed),
{
    let mut code: i32 = 0;
    let mut signal: i32 = 0;
    match exit_signal {
        Some(number) => {
            signal = number;
        },
        None => match exit_code {
            Some(number) => {
                code = number;
            },
            None => {
                if failed {
                    code = 1;
                }
            },
        },
    }
    if signal != 0 {
        let low: i32 = signal & 0x7f;
        proof {
            lemma_low_bits(signal);
        }
        return low;
    }
    let low: i32 = code & 0xff;
    proof {
        lemma_low_bits(code);
    }
    low * 256
}

/// The exit code of a service that ended, on a platform whose exits carry a whole code and no
/// signal. A code that does not fit is a failure.
pub open spec fn service_code(exit_code: Option<i32>, exit_signal: Option<i32>, failed: bool) -> int {
    if exit_signal is Some {
        0
    } else {
        match exit_code {
            Some(code) => if code >= 0 {
                code as int
            } else {
                1
            },
            None => if failed {
                1
            } else {
                0
            },
        }
    }
}

/// The exit code of a service that ended, from what its manager reports, on a platform whose exits
/// carry a whole code and no signal.
pub fn service_exit_code(exit_code: Option<i32>, exit_signal: Option<i32>, failed: bool) -> (r: u32)
    ensures
        r == service_code(exit_code, exit_signal, failed),
{
    if exit_signal.is_some() {
        return 0;
    }
    match exit_code {
        Some(code) => if code >= 0 {
            code as u32
        } else {
            1
        },
        None => if failed {
            1
        } else {
            0
        },
    }
}

proof fn lemma_low_bits(n: i32)
    ensures
        n & 0x7f == (n as int) % 128,
        n & 0xff == (n as int) % 256,
{
    let bits: u32 = n as u32;
    assert(n >= 0 ==> bits == n) by (bit_vector)
        requires
            bits == n as u32,
    ;
    assert(n < 0 ==> bits == n + 0x1_0000_0000) by (bit_vector)
        requires
            bits == n as u32,
    ;
    assert(n & 0x7f == bits % 128) by (bit_vector)
        requires
            bits == n as u32,
    ;
    assert(n & 0xff == bits % 256) by (bit_vector)
        requires
            bits == n as u32,
    ;
}

// ---------------------------------------------------------------------------
// Watching a service
// ---------------------------------------------------------------------------

/// What a service manager says of a service.
#[derive(Debug, Clone, Copy, PartialEq, Eq, Structural)]
pub struct ServiceReport {
    pub main_pid: Option<u32>,
    /// Whether the service is in a state that it does not leave by itself.
    pub terminal: bool,
    /// Whether that state is a failure.
    pub failed: bool,
    pub exit_code: Option<i32>,
    pub exit_signal: Option<i32>,
}

/// A service as its manager's reports tell of it.
pub struct ServiceWatch {
    pid: Option<u32>,
}

impl ServiceWatch {
    /// The process id as last reported.
    pub closed spec fn known_pid(&self) -> Option<u32> {
        self.pid
    }

    /// A service with the process id that it started with.
    pub fn new(pid: Option<u32>) -> (r: ServiceWatch)
        ensures
            r.known_pid() == pid,
    {
        ServiceWatch { pid }
    }

    /// The process id as last reported.
    pub fn pid(&self) -> (r: Option<u32>)
        ensures
            r == self.known_pid(),
    {
        self.pid
    }

    /// Takes a report in. The wait status of the service comes back when it has ended; a manager
    /// that restarts it passes through states that are not final and ends nothing.
    pub fn observe(&mut self, report: &ServiceReport) -> (r: Option<i32>)
        ensures
            final(self).known_pid() == (if report.main_pid is Some {
                report.main_pid
            } else {
                old(self).known_pid()
            }),
            match r {
                Some(status) => report.terminal && status == service_status(
                    report.exit_code,
                    report.exit_signal,
                    report.failed,
                ),
                None => !report.terminal,
            },
    {
        if report.main_pid.is_some() {
            self.pid = report.main_pid;
        }
        if report.terminal {
            Some(service_exit_status(report.exit_code, report.exit_signal, report.failed))
        } else {
            None
        }
    }
}

// ---------------------------------------------------------------------------
// Laws
// ---------------------------------------------------------------------------

proof fn lemma_named(name: Seq<char>)
    requires
        name.len() >= 3,
        !crate::text::is_white(name[0]),
        !crate::text::is_white(name.last()),
        forall|i: int| 0 <= i < name.len() ==> !('a' <= #[trigger] name[i] <= 'z'),
    ensures
        upper(trim(name)) == name,
{
    assert(trim(name) =~= name);
    assert(upper(name) =~= name);
}

proof fn lemma_names()
    ensures
        forall|name: Seq<char>, a: StopSignal, b: StopSignal|
            #![trigger names(name, a), names(name, b)]
            names(name, a) && names(name, b) ==> a == b,
        forall|a: StopSignal| #![trigger signal_name(a)] upper(trim(signal_name(a))) == signal_name(a),
        forall|a: StopSignal| #![trigger bare_name(a)] upper(trim(bare_name(a))) == bare_name(a),
{
    reveal_strlit("SIGTERM");
    reveal_strlit("SIGINT");
    reveal_strlit("SIGHUP");
    reveal_strlit("SIGUSR1");
    reveal_strlit("SIGUSR2");
    reveal_strlit("TERM");
    reveal_strlit("INT");
    reveal_strlit("HUP");
    reveal_strlit("USR1");
    reveal_strlit("USR2");
    assert forall|name: Seq<char>, a: StopSignal, b: StopSignal|
        #![trigger names(name, a), names(name, b)]
        names(name, a) && names(name, b) implies a == b by {
        assert("SIGTERM"@[3] == 'T' && "SIGUSR1"@[3] == 'U' && "SIGUSR2"@[3] == 'U');
        assert("SIGINT"@[3] == 'I' && "SIGHUP"@[3] == 'H');
        assert("SIGUSR1"@[6] == '1' && "SIGUSR2"@[6] == '2');
        assert("TERM"@[0] == 'T' && "USR1"@[0] == 'U' && "USR2"@[0] == 'U');
        assert("INT"@[0] == 'I' && "HUP"@[0] == 'H');
        assert("USR1"@[3] == '1' && "USR2"@[3] == '2');
    }
    assert forall|a: StopSignal| #![trigger signal_name(a)] upper(trim(signal_name(a)))
        == signal_name(a) by {
        lemma_named(signal_name(a));
    }
    assert forall|a: StopSignal| #![trigger bare_name(a)] upper(trim(bare_name(a)))
        == bare_name(a) by {
        lemma_named(bare_name(a));
    }
}

/// A text is read as a signal exactly where it is the signal's name or its bare name, in any case
/// and with space around it.
pub proof fn law_a_signal_is_read_in_any_spelling(value: Seq<char>, signal: StopSignal)
    ensures
        signal_of(value) == Some(signal) <==> names(upper(trim(value)), signal),
{
    lemma_names();
    let name = upper(trim(value));
    if names(name, signal) {
        assert(names(name, StopSignal::Term) ==> signal == StopSignal::Term);
        assert(names(name, StopSignal::Int) ==> signal == StopSignal::Int);
        assert(names(name, StopSignal::Hup) ==> signal == StopSignal::Hup);
        assert(names(name, StopSignal::Usr1) ==> signal == StopSignal::Usr1);
        assert(names(name, StopSignal::Usr2) ==> signal == StopSignal::Usr2);
    }
}

/// A signal's own name gives the signal back, and so does its bare name.
pub proof fn law_a_signals_name_names_it(signal: StopSignal)
    ensures
        signal_of(signal_name(signal)) == Some(signal),
        signal_of(bare_name(signal)) == Some(signal),
{
    lemma_names();
    law_a_signal_is_read_in_any_spelling(signal_name(signal), signal);
    law_a_signal_is_read_in_any_spelling(bare_name(signal), signal);
}

/// What a manager reports of an exit is read back from the wait status that is made of it. The
/// platform knows signals up to 126 and codes of one byte.
pub proof fn law_a_reported_exit_is_read_back(number: i32, failed: bool)
    ensures
        0 < number < 127 ==> wait_status(service_status(None, Some(number), failed)) == (ExitInfo {
            code: None,
            signal: Some(number),
        }),
        0 <= number < 256 ==> wait_status(service_status(Some(number), None, failed)) == (ExitInfo {
            code: Some(number),
            signal: None,
        }),
{
}

/// A service that failed without telling how is never read as completed, on any platform.
pub proof fn law_an_untold_failure_is_a_failure()
    ensures
        classified(wait_status(service_status(None, None, true))).outcome
            == ChildExitOutcome::Failed,
        classified(
            ExitInfo { code: Some(service_code(None, None, true) as i32), signal: None },
        ).outcome == ChildExitOutcome::Failed,
{
}

/// Only a process that exited with code zero is reported as completed, and only one that did not
/// is given a cause. The code of a process that no signal ended is reported as it is.
pub proof fn law_a_failure_is_reported_with_a_cause(exit: ExitInfo)
    ensures
        classified(exit).outcome == ChildExitOutcome::Completed <==> exit.code == Some(0i32),
        classified(exit).cause.len() == 0 <==> exit.code == Some(0i32),
        exit.signal is None ==> classified(exit).exit_code == exit.code,
{
    reveal_strlit("");
    reveal_strlit("oom-killed");
    reveal_strlit("signal");
    reveal_strlit("exit-error");
}

/// What ended a process is told by its cause: the memory killer exactly where signal 9 ended it,
/// another signal exactly where one did, and an error of the app exactly where it failed without
/// any. A signal is named by its number and comes without a code; a code comes as it is.
pub proof fn law_the_cause_tells_what_ended_it(exit: ExitInfo)
    requires
        exit.code != Some(0i32),
    ensures
        classified(exit).outcome is Failed,
        classified(exit).cause == "oom-killed"@ <==> exit.signal == Some(9i32),
        classified(exit).cause == "signal"@ <==> exit.signal is Some && exit.signal != Some(9i32),
        classified(exit).cause == "exit-error"@ <==> exit.signal is None,
        exit.signal matches Some(number) ==> classified(exit).exit_code is None
            && classified(exit).reason == "killed by signal "@ + signed_decimal(number as int),
        exit.signal is None ==> classified(exit).exit_code == exit.code,
        exit.signal is None ==> (exit.code matches Some(code) ==> classified(exit).reason
            == "app exited with code "@ + signed_decimal(code as int)),
{
    reveal_strlit("oom-killed");
    reveal_strlit("signal");
    reveal_strlit("exit-error");
    assert("oom-killed"@.len() == 10 && "signal"@.len() == 6);
    assert("oom-killed"@[0] == 'o' && "exit-error"@[0] == 'e');
}

/// A clean exit is told as completed, with its code and without a cause.
pub proof fn law_a_clean_exit_is_completed(exit: ExitInfo)
    requires
        exit.code == Some(0i32),
    ensures
        classified(exit).outcome is Completed,
        classified(exit).exit_code == Some(0i32),
        classified(exit).cause.len() == 0,
{
    reveal_strlit("");
}

/// Each signal is known by its own name, with its prefix or without, in any case and with white
/// space around it, and no other text is a signal.
pub proof fn law_each_signal_has_its_own_name(value: Seq<char>)
    ensures
        ({
            let name = upper(trim(value));
            let signal = signal_of(value);
            &&& signal == Some(StopSignal::Term) <==> name == "TERM"@ || name == "SIGTERM"@
            &&& signal == Some(StopSignal::Int) <==> name == "INT"@ || name == "SIGINT"@
            &&& signal == Some(StopSignal::Hup) <==> name == "HUP"@ || name == "SIGHUP"@
            &&& signal == Some(StopSignal::Usr1) <==> name == "USR1"@ || name == "SIGUSR1"@
            &&& signal == Some(StopSignal::Usr2) <==> name == "USR2"@ || name == "SIGUSR2"@
        }),
{
    law_a_signal_is_read_in_any_spelling(value, StopSignal::Term);
    law_a_signal_is_read_in_any_spelling(value, StopSignal::Int);
    law_a_signal_is_read_in_any_spelling(value, StopSignal::Hup);
    law_a_signal_is_read_in_any_spelling(value, StopSignal::Usr1);
    law_a_signal_is_read_in_any_spelling(value, StopSignal::Usr2);
}

/// How a service ended is told in the order of what is known of it: by the signal that ended it, by
/// its code, and by whether it failed. A code is told by its lowest byte to a wait, and as it is,
/// or as a failure where it is none, to a platform without signals.
pub proof fn law_a_service_ends_as_it_is_reported(
    exit_code: Option<i32>,
    exit_signal: Option<i32>,
    failed: bool,
)
    ensures
        ({
            let exit = wait_status(service_status(exit_code, exit_signal, failed));
            let code = service_code(exit_code, exit_signal, failed);
            &&& exit_signal matches Some(n) ==> (0 < n < 127 ==> exit.signal == Some(n)
                && exit.code is None)
            &&& exit_signal is Some ==> code == 0
            &&& exit_signal is None ==> exit.signal is None
            &&& exit_signal is None ==> (exit_code matches Some(c) ==> exit.code == Some(
                ((c as int) % 256) as i32,
            ) && code == (if c >= 0 {
                c as int
            } else {
                1
            }))
            &&& exit_signal is None && exit_code is None && failed ==> exit.code == Some(1i32) && code
                == 1
            &&& exit_signal is None && exit_code is None && !failed ==> exit.code == Some(0i32)
                && code == 0
        }),
{
}

proof fn lemma_line_ends(text: Seq<u8>, ends: Seq<u8>)
    requires
        text.len() > 0 ==> text.last() != 10 && text.last() != 13,
        forall|i: int| 0 <= i < ends.len() ==> #[trigger] ends[i] == 10 || ends[i] == 13,
    ensures
        without_line_ends(text + ends) == text,
    decreases ends.len(),
{
    let whole = text + ends;
    if ends.len() > 0 {
        let n = ends.len() - 1;
        assert(ends[n] == 10 || ends[n] == 13);
        assert(whole.last() == ends[n]);
        assert(whole.drop_last() =~= text + ends.drop_last());
        assert forall|i: int| 0 <= i < ends.drop_last().len() implies #[trigger] ends.drop_last()[i]
            == 10 || ends.drop_last()[i] == 13 by {
            assert(ends[i] == 10 || ends[i] == 13);
        }
        lemma_line_ends(text, ends.drop_last());
    } else {
        assert(whole =~= text);
    }
}

/// A line is logged without what ends it, and everything before that is logged. It is logged once
/// it has ended, or with the stream, and an empty rest of the stream is no line.
pub proof fn law_a_line_is_logged_without_its_end(text: Seq<u8>, ends: Seq<u8>)
    requires
        text.len() > 0 ==> text.last() != 10 && text.last() != 13,
        forall|i: int| 0 <= i < ends.len() ==> #[trigger] ends[i] == 10 || ends[i] == 13,
    ensures
        without_line_ends(text + ends) == text,
        ends.len() > 0 && ends.last() == 10 ==> logged(text + ends, false) == Some(lossy_text(text)),
        (text + ends).len() > 0 ==> logged(text + ends, true) == Some(lossy_text(text)),
        ends.len() == 0 ==> logged(text, false) is None,
        logged(Seq::empty(), true) is None,
{
    lemma_line_ends(text, ends);
    if ends.len() > 0 {
        assert((text + ends).last() == ends.last());
    }
}

/// How an app ended is shown as it is.
pub proof fn law_an_exit_is_shown_as_it_is(exit: ChildExit)
    ensures
        exit@.outcome == exit.outcome,
        exit@.reason == exit.reason@,
        exit@.exit_code == exit.exit_code,
        exit@.cause == exit.cause@,
{
}

/// A signal reaches the process it is for, and its group only if the process leads it: no process
/// is ever signalled through the group of another.
pub proof fn law_only_its_own_group_is_signalled(pid: u32, group: i32)
    ensures
        target_of(pid, group) matches Some(target) ==> {
            &&& target == pid || target == -pid
            &&& target < 0 ==> group == pid
            &&& group == pid && pid > 0 ==> target < 0
        },
        target_of(pid, group) is Some <==> pid <= i32::MAX,
{
}

} // verus!
