//! Restarts that a lifecycle phase asks for.
//!
//! A phase never restarts the machine itself. It asks, and the runtime counts what was asked:
//! one execution of a phase may restart the machine a limited number of times. A marker on disk
//! carries the count over the restart. A restart that was taken without asking is charged to the
//! same count when the phase is entered again.

use crate::persist::restore::{below, join_path};
use crate::text::{
    cat2, cat3, cat5, chars_of, join, joined, lower, lowered, owned, same, same_chars, slice_string,
    starts_with, stands_at, views,
};
use vstd::prelude::*;

verus! {

/// The directory of the commands that a phase finds in place of the platform's own.
pub const SHIM_DIR: &'static str = "reboot-shim";

/// The file that a request is recorded in.
pub const REQUEST_FILE: &'static str = "reboot-request";

/// The file of the marker.
pub const MARKER_FILE: &'static str = "phase-reboot.json";

/// The variable that names the request file to a phase.
pub const REQUEST_ENV: &'static str = "ORC_REBOOT_REQUEST";

/// The variable that says why a phase may not restart the machine at all.
pub const DENY_ENV: &'static str = "ORC_REBOOT_DENY";

/// The variable that picks how a restart is performed.
pub const EXEC_ENV: &'static str = "ORC_REBOOT_EXEC";

/// How many restarts one execution of a phase may be granted.
pub const MAX_PHASE_REBOOTS: u32 = 5;

/// The command that the runtime answers to in place of the platform's own.
pub const SHIM_COMMAND: &'static str = "shutdown";

/// Whether a phase that was charged this many restarts may ask for one more.
pub fn may_reboot(count: u32) -> (r: bool)
    ensures
        r == (count < MAX_PHASE_REBOOTS),
{
    count < MAX_PHASE_REBOOTS
}

// ---------------------------------------------------------------------------
// The marker
// ---------------------------------------------------------------------------

/// How a pass of a phase ended.
#[derive(Debug, Clone, Copy, PartialEq, Eq, Structural)]
pub enum PhaseOutcome {
    /// The pass ran to its own end.
    Completed,
    /// The phase asked for a restart, and is entered again after it.
    RebootRequested {
        /// The restarts charged so far, this one among them.
        reboot_count: u32,
    },
}

/// The execution of a phase that is under way, and the restarts that it was charged.
#[derive(Debug, PartialEq, Eq)]
pub struct PhaseMarker {
    pub app: String,
    pub version: String,
    pub phase: String,
    /// The restarts charged so far.
    pub reboot_count: u32,
    /// Whether the last of them was asked for and is still to come.
    pub requested: bool,
}

impl Clone for PhaseMarker {
    fn clone(&self) -> (r: PhaseMarker)
        ensures
            r == *self,
    {
        PhaseMarker {
            app: self.app.clone(),
            version: self.version.clone(),
            phase: self.phase.clone(),
            reboot_count: self.reboot_count,
            requested: self.requested,
        }
    }
}

/// A marker as a value.
pub struct MarkerView {
    pub app: Seq<char>,
    pub version: Seq<char>,
    pub phase: Seq<char>,
    pub reboot_count: u32,
    pub requested: bool,
}

impl View for PhaseMarker {
    type V = MarkerView;

    open spec fn view(&self) -> MarkerView {
        MarkerView {
            app: self.app@,
            version: self.version@,
            phase: self.phase@,
            reboot_count: self.reboot_count,
            requested: self.requested,
        }
    }
}

/// The marker that was found, as a value.
pub open spec fn found_marker(marker: Option<PhaseMarker>) -> Option<MarkerView> {
    match marker {
        Some(m) => Some(m@),
        None => None,
    }
}

/// One more, where there is room for it.
pub open spec fn one_more(count: u32) -> u32 {
    if count == u32::MAX {
        count
    } else {
        (count + 1) as u32
    }
}

fn one_more_of(count: u32) -> (r: u32)
    ensures
        r == one_more(count),
{
    if count == 0xffff_ffff {
        count
    } else {
        count + 1
    }
}

/// Whether a marker is one of this phase.
pub open spec fn is_of(
    marker: MarkerView,
    app: Seq<char>,
    version: Seq<char>,
    phase: Seq<char>,
) -> bool {
    marker.app == app && marker.version == version && marker.phase == phase
}

/// The marker of a phase that is entered. A marker of the same phase is taken up: where its
/// restart was asked for, it was charged then; else the phase went down unasked and is charged
/// now. Any other marker is replaced.
pub open spec fn entered(
    found: Option<MarkerView>,
    app: Seq<char>,
    version: Seq<char>,
    phase: Seq<char>,
) -> MarkerView {
    MarkerView {
        app,
        version,
        phase,
        reboot_count: match found {
            Some(marker) if is_of(marker, app, version, phase) => if marker.requested {
                marker.reboot_count
            } else {
                one_more(marker.reboot_count)
            },
            _ => 0,
        },
        requested: false,
    }
}

/// The marker of a pass that asked for a restart: what stands on disk, charged.
pub open spec fn charged(found: Option<MarkerView>, count: u32) -> MarkerView {
    match found {
        Some(marker) => MarkerView { reboot_count: count, requested: true, ..marker },
        None => MarkerView {
            app: Seq::empty(),
            version: Seq::empty(),
            phase: Seq::empty(),
            reboot_count: count,
            requested: true,
        },
    }
}

/// The path of the marker.
pub fn marker_path(state_dir: &str) -> (r: String)
    ensures
        r@ == below(state_dir@, MARKER_FILE@),
{
    join_path(state_dir, MARKER_FILE)
}

/// The files that are removed when an execution of a phase is over: the marker, and a request
/// left beside it.
pub fn clear(state_dir: &str) -> (r: (String, String))
    ensures
        r.0@ == below(state_dir@, MARKER_FILE@),
        r.1@ == below(state_dir@, REQUEST_FILE@),
{
    (marker_path(state_dir), join_path(state_dir, REQUEST_FILE))
}

// ---------------------------------------------------------------------------
// A pass
// ---------------------------------------------------------------------------

/// What one pass of a phase runs under: the directory of the commands that stand in for the
/// platform's own, and the file to record a request in while the phase may ask.
#[derive(Debug)]
pub struct PhaseReboot {
    state_dir: String,
    shim_dir: String,
    request_file: Option<String>,
    reboot_count: u32,
    deny: Option<String>,
}

impl PhaseReboot {
    /// The restarts charged so far.
    pub closed spec fn count(&self) -> u32 {
        self.reboot_count
    }

    /// The directory that the runtime keeps its state in.
    pub closed spec fn state(&self) -> Seq<char> {
        self.state_dir@
    }

    /// The directory of the commands.
    pub closed spec fn shims(&self) -> Seq<char> {
        self.shim_dir@
    }

    /// The file to record a request in.
    pub closed spec fn granted(&self) -> Option<Seq<char>> {
        match self.request_file {
            Some(path) => Some(path@),
            None => None,
        }
    }

    /// Why the phase may not restart the machine at all.
    pub closed spec fn denied(&self) -> Option<Seq<char>> {
        match self.deny {
            Some(reason) => Some(reason@),
            None => None,
        }
    }

    /// A file to record a request in is granted only below the limit.
    pub open spec fn wf(&self) -> bool {
        &&& self.granted() is Some ==> self.count() < MAX_PHASE_REBOOTS
        &&& self.shims() == below(self.state(), SHIM_DIR@)
    }

    /// Opens a pass of a phase, given the marker that was found. The marker to write comes with
    /// it.
    pub fn enter(
        state_dir: &str,
        app: &str,
        version: &str,
        phase: &str,
        found: Option<PhaseMarker>,
    ) -> (r: (PhaseReboot, PhaseMarker))
        ensures
            r.0.wf(),
            r.0.state() == state_dir@,
            r.0.denied() is None,
            r.0.count() == r.1.reboot_count,
            r.0.granted() == (if r.1.reboot_count < MAX_PHASE_REBOOTS {
                Some(below(state_dir@, REQUEST_FILE@))
            } else {
                None
            }),
            r.1@ == entered(found_marker(found), app@, version@, phase@),
    {
        let count: u32 = match found {
            Some(marker) => if same(marker.app.as_str(), app) && same(
                marker.version.as_str(),
                version,
            ) && same(marker.phase.as_str(), phase) {
                if marker.requested {
                    marker.reboot_count
                } else {
                    one_more_of(marker.reboot_count)
                }
            } else {
                0
            },
            None => 0,
        };
        let request_file = if may_reboot(count) {
            Some(join_path(state_dir, REQUEST_FILE))
        } else {
            None
        };
        (
            PhaseReboot {
                state_dir: owned(state_dir),
                shim_dir: join_path(state_dir, SHIM_DIR),
                request_file,
                reboot_count: count,
                deny: None,
            },
            PhaseMarker {
                app: owned(app),
                version: owned(version),
                phase: owned(phase),
                reboot_count: count,
                requested: false,
            },
        )
    }

    /// A pass of a phase that may not restart the machine at all.
    pub fn refusing(state_dir: &str, reason: &str) -> (r: PhaseReboot)
        ensures
            r.wf(),
            r.state() == state_dir@,
            r.denied() == Some(reason@),
            r.count() == 0,
            r.granted() is None,
    {
        PhaseReboot {
            state_dir: owned(state_dir),
            shim_dir: join_path(state_dir, SHIM_DIR),
            request_file: None,
            reboot_count: 0,
            deny: Some(owned(reason)),
        }
    }

    /// Why the phase may not restart the machine at all.
    pub fn deny_reason(&self) -> (r: Option<&str>)
        ensures
            match r {
                Some(reason) => self.denied() == Some(reason@),
                None => self.denied() is None,
            },
    {
        match &self.deny {
            Some(reason) => Some(reason.as_str()),
            None => None,
        }
    }

    /// The directory of the commands.
    pub fn shim_dir(&self) -> (r: &str)
        ensures
            r@ == self.shims(),
    {
        self.shim_dir.as_str()
    }

    /// The file to record a request in.
    pub fn request_file(&self) -> (r: Option<&str>)
        ensures
            match r {
                Some(path) => self.granted() == Some(path@),
                None => self.granted() is None,
            },
    {
        match &self.request_file {
            Some(path) => Some(path.as_str()),
            None => None,
        }
    }

    /// The restarts charged so far.
    pub fn reboot_count(&self) -> (r: u32)
        ensures
            r == self.count(),
    {
        self.reboot_count
    }

    /// Closes a pass that ran to its own end. `recorded` says whether a request stood in the file
    /// that was granted, and `found` is the marker on disk. The marker to write comes back where
    /// a restart was asked for; else the marker is to be removed.
    pub fn finish(&self, recorded: bool, found: Option<PhaseMarker>) -> (r: (
        PhaseOutcome,
        Option<PhaseMarker>,
    ))
        requires
            self.wf(),
        ensures
            if recorded && self.granted() is Some {
                &&& r.0 == (PhaseOutcome::RebootRequested { reboot_count: (self.count() + 1) as u32 })
                &&& self.count() + 1 <= MAX_PHASE_REBOOTS
                &&& r.1 matches Some(marker)
                &&& marker@ == charged(found_marker(found), (self.count() + 1) as u32)
            } else {
                &&& r.0 == PhaseOutcome::Completed
                &&& r.1 is None
            },
    {
        if !recorded || self.request_file.is_none() {
            return (PhaseOutcome::Completed, None);
        }
        let reboot_count: u32 = self.reboot_count + 1;
        let marker = match found {
            Some(marker) => PhaseMarker {
                app: marker.app,
                version: marker.version,
                phase: marker.phase,
                reboot_count,
                requested: true,
            },
            None => PhaseMarker {
                app: String::new(),
                version: String::new(),
                phase: String::new(),
                reboot_count,
                requested: true,
            },
        };
        proof {
            if found is None {
                assert(marker.app@ =~= Seq::<char>::empty());
                assert(marker.version@ =~= Seq::<char>::empty());
                assert(marker.phase@ =~= Seq::<char>::empty());
            }
        }
        (PhaseOutcome::RebootRequested { reboot_count }, Some(marker))
    }

    /// Closes a pass that failed: the files to remove. A request that it recorded dies with it.
    pub fn abandon(&self) -> (r: (String, String))
        ensures
            r.0@ == below(self.state(), MARKER_FILE@),
            r.1@ == below(self.state(), REQUEST_FILE@),
    {
        clear(self.state_dir.as_str())
    }
}

// ---------------------------------------------------------------------------
// The command that stands in for the platform's own
// ---------------------------------------------------------------------------

/// Whether an argument asks for a restart.
pub open spec fn restart_form(arg: Seq<char>) -> bool {
    arg == "-r"@ || arg == "--reboot"@ || lower(arg) == "/r"@
}

/// Whether an argument asks for a restart, as `shutdown` is told it on either platform.
pub fn is_restart_form(arg: &str) -> (r: bool)
    ensures
        r == restart_form(arg@),
{
    same(arg, "-r") || same(arg, "--reboot") || same_chars(
        &lowered(&chars_of(arg)),
        &chars_of("/r"),
    )
}

/// Whether any argument asks for a restart.
pub open spec fn asks_restart(args: Seq<Seq<char>>) -> bool {
    exists|i: int| 0 <= i < args.len() && restart_form(#[trigger] args[i])
}

/// What the command leaves behind: its exit code and what it prints.
#[derive(Debug, PartialEq, Eq)]
pub struct ShimReply {
    pub code: i32,
    /// What goes to the standard output.
    pub out: String,
    /// What goes to the standard error.
    pub err: String,
}

/// What the command does.
#[derive(Debug, PartialEq, Eq)]
pub enum ShimStep {
    /// It ends at once.
    Done(ShimReply),
    /// It writes the text to the file, and ends as [`shim_recorded`] says.
    Record { path: String, text: String },
}

fn refused(err: String) -> (r: ShimReply)
    ensures
        r.code == 1,
        r.out@ == Seq::<char>::empty(),
        r.err@ == err@,
{
    ShimReply { code: 1, out: String::new(), err }
}

/// What the command does with its arguments, the request file that was granted and the reason for
/// which none was.
pub fn run_shim_args(args: &Vec<String>, request_file: Option<&str>, deny: Option<&str>) -> (r:
    ShimStep)
    ensures
        match r {
            ShimStep::Done(reply) => {
                &&& reply.code == 1
                &&& reply.out@ == Seq::<char>::empty()
                &&& if !asks_restart(views(args@)) {
                    reply.err@ == "orc: phase may not power off the node\n"@
                } else {
                    &&& request_file is None
                    &&& reply.err@ == "orc: "@ + (match deny {
                        Some(reason) => reason@,
                        None => "reboot budget exhausted"@,
                    }) + "; request refused\n"@
                }
            },
            ShimStep::Record { path, text } => {
                &&& asks_restart(views(args@))
                &&& request_file matches Some(file) && path@ == file@
                &&& text@ == join(views(args@), " "@) + "\n"@
            },
        },
{
    let mut asks = false;
    for i in 0..args.len()
        invariant
            asks == exists|j: int| 0 <= j < i && restart_form(#[trigger] views(args@)[j]),
    {
        assert(views(args@)[i as int] == args@[i as int]@);
        if is_restart_form(args[i].as_str()) {
            asks = true;
            assert(restart_form(views(args@)[i as int]));
        }
    }
    if !asks {
        return ShimStep::Done(refused(owned("orc: phase may not power off the node\n")));
    }
    match request_file {
        None => {
            let reason = match deny {
                Some(reason) => reason,
                None => "reboot budget exhausted",
            };
            ShimStep::Done(refused(cat3("orc: ", reason, "; request refused\n")))
        },
        Some(path) => ShimStep::Record {
            path: owned(path),
            text: cat2(joined(args, " ").as_str(), "\n"),
        },
    }
}

/// What the command leaves behind once it tried to record a request. It says that the restart is
/// accepted only where the request stands in the file.
pub fn shim_recorded(path: &str, error: Option<&str>) -> (r: ShimReply)
    ensures
        match error {
            None => {
                &&& r.code == 0
                &&& r.out@
                    == "orc: reboot requested; the runtime restarts this node after the phase\n"@
                &&& r.err@ == Seq::<char>::empty()
            },
            Some(e) => {
                &&& r.code == 1
                &&& r.out@ == Seq::<char>::empty()
                &&& r.err@ == "orc: reboot request could not be recorded: "@ + path@ + ": "@ + e@
                    + "\n"@
            },
        },
{
    match error {
        None => ShimReply {
            code: 0,
            out: owned("orc: reboot requested; the runtime restarts this node after the phase\n"),
            err: String::new(),
        },
        Some(e) => refused(
            cat5("orc: reboot request could not be recorded: ", path, ": ", e, "\n"),
        ),
    }
}

/// Whether a program that was started under this name is to act as the command.
pub fn is_shim_name(stem: &str) -> (r: bool)
    ensures
        r == (lower(stem@) == lower(SHIM_COMMAND@)),
{
    same_chars(&lowered(&chars_of(stem)), &lowered(&chars_of(SHIM_COMMAND)))
}

// ---------------------------------------------------------------------------
// Performing a restart
// ---------------------------------------------------------------------------

/// How a granted restart is performed.
#[derive(Debug, PartialEq, Eq)]
pub enum RebootExecutor {
    /// The machine is restarted.
    Real,
    /// A line is added to a file instead.
    Fake(String),
}

/// What came of a restart.
#[derive(Debug, Clone, Copy, PartialEq, Eq, Structural)]
pub enum RebootAction {
    /// The machine is going down.
    Rebooting,
    /// The restart was written down; nothing goes down.
    Recorded,
    /// The restart could not be performed.
    Failed,
}

/// The file that stands in for the restarts.
pub open spec fn fake_file(value: Seq<char>) -> Option<Seq<char>> {
    if stands_at(value, "fake:"@, 0) {
        Some(value.subrange(5, value.len() as int))
    } else {
        None
    }
}

impl RebootExecutor {
    /// Reads how restarts are performed: `fake:` and a path, or for real.
    pub fn parse(value: &str) -> (r: RebootExecutor)
        ensures
            match r {
                RebootExecutor::Real => fake_file(value@) is None,
                RebootExecutor::Fake(path) => fake_file(value@) == Some(path@),
            },
    {
        let chars = chars_of(value);
        proof {
            reveal_strlit("fake:");
        }
        if starts_with(&chars, "fake:") {
            RebootExecutor::Fake(slice_string(&chars, 5, chars.len()))
        } else {
            RebootExecutor::Real
        }
    }

    /// How restarts are performed under this setting, or without one.
    pub fn from_env(value: Option<&str>) -> (r: RebootExecutor)
        ensures
            match value {
                None => r is Real,
                Some(text) => match r {
                    RebootExecutor::Real => fake_file(text@) is None,
                    RebootExecutor::Fake(path) => fake_file(text@) == Some(path@),
                },
            },
    {
        match value {
            None => RebootExecutor::Real,
            Some(text) => RebootExecutor::parse(text),
        }
    }

    /// What came of a restart, given whether the platform took it or the line was written.
    pub fn execute(&self, done: bool) -> (r: RebootAction)
        ensures
            r == (if !done {
                RebootAction::Failed
            } else if self is Real {
                RebootAction::Rebooting
            } else {
                RebootAction::Recorded
            }),
    {
        if !done {
            return RebootAction::Failed;
        }
        match self {
            RebootExecutor::Real => RebootAction::Rebooting,
            RebootExecutor::Fake(_) => RebootAction::Recorded,
        }
    }
}

// ---------------------------------------------------------------------------
// Laws
// ---------------------------------------------------------------------------

/// What a pass of a phase comes to.
pub enum Pass {
    /// It asks for a restart at its end.
    Asks,
    /// The machine goes down unasked while it runs.
    GoesDown,
}

/// How many restarts are granted to one execution of a phase that is entered with this marker and
/// goes through these passes. A request at the limit is refused: the pass completes, and the
/// execution is over.
pub open spec fn grants(marker: MarkerView, passes: Seq<Pass>) -> nat
    decreases passes.len(),
{
    if passes.len() == 0 {
        0
    } else {
        let now = entered(Some(marker), marker.app, marker.version, marker.phase);
        let rest = passes.drop_first();
        match passes[0] {
            Pass::GoesDown => grants(now, rest),
            Pass::Asks => if now.reboot_count < MAX_PHASE_REBOOTS {
                1 + grants(charged(Some(now), (now.reboot_count + 1) as u32), rest)
            } else {
                0
            },
        }
    }
}

/// One execution of a phase is never granted more restarts than the limit, however often it is
/// entered, and a restart that it was charged with is one less to be granted.
pub proof fn law_restarts_are_limited(marker: MarkerView, passes: Seq<Pass>)
    ensures
        grants(marker, passes) <= MAX_PHASE_REBOOTS,
        marker.reboot_count <= MAX_PHASE_REBOOTS ==> marker.reboot_count + grants(marker, passes)
            <= MAX_PHASE_REBOOTS,
        marker.reboot_count >= MAX_PHASE_REBOOTS ==> grants(marker, passes) == 0,
    decreases passes.len(),
{
    if passes.len() > 0 {
        let now = entered(Some(marker), marker.app, marker.version, marker.phase);
        let rest = passes.drop_first();
        law_restarts_are_limited(now, rest);
        if now.reboot_count < MAX_PHASE_REBOOTS {
            law_restarts_are_limited(charged(Some(now), (now.reboot_count + 1) as u32), rest);
        }
    }
}

/// A restart that was asked for is charged once: the phase is entered again with the count that
/// it left with.
pub proof fn law_an_asked_restart_is_charged_once(
    found: Option<MarkerView>,
    app: Seq<char>,
    version: Seq<char>,
    phase: Seq<char>,
)
    requires
        entered(found, app, version, phase).reboot_count < MAX_PHASE_REBOOTS,
    ensures
        ({
            let before = entered(found, app, version, phase);
            let count = (before.reboot_count + 1) as u32;
            entered(Some(charged(Some(before), count)), app, version, phase).reboot_count
                == before.reboot_count + 1
        }),
{
}

/// A restart that was not asked for is charged when the phase is entered again.
pub proof fn law_an_unasked_restart_is_charged(
    found: Option<MarkerView>,
    app: Seq<char>,
    version: Seq<char>,
    phase: Seq<char>,
)
    requires
        entered(found, app, version, phase).reboot_count < u32::MAX,
    ensures
        entered(
            Some(entered(found, app, version, phase)),
            app,
            version,
            phase,
        ).reboot_count == entered(found, app, version, phase).reboot_count + 1,
{
}

/// Another app, another version or another phase starts on a full budget.
pub proof fn law_another_phase_starts_afresh(
    marker: MarkerView,
    app: Seq<char>,
    version: Seq<char>,
    phase: Seq<char>,
)
    requires
        marker.app != app || marker.version != version || marker.phase != phase,
    ensures
        entered(Some(marker), app, version, phase).reboot_count == 0,
{
}

/// A phase that asks for a restart each time it runs is granted one each time until it has had
/// five, those before included, and then none.
pub proof fn law_five_restarts_are_granted(marker: MarkerView, passes: Seq<Pass>)
    requires
        marker.requested,
        marker.reboot_count <= 5,
        forall|i: int| 0 <= i < passes.len() ==> #[trigger] passes[i] is Asks,
    ensures
        grants(marker, passes) == (if passes.len() + marker.reboot_count <= 5 {
            passes.len() as int
        } else {
            5 - marker.reboot_count
        }),
    decreases passes.len(),
{
    if passes.len() > 0 {
        assert(passes[0] is Asks);
        let now = entered(Some(marker), marker.app, marker.version, marker.phase);
        let rest = passes.drop_first();
        assert forall|i: int| 0 <= i < rest.len() implies #[trigger] rest[i] is Asks by {
            assert(passes[i + 1] is Asks);
        }
        if now.reboot_count < 5 {
            law_five_restarts_are_granted(
                charged(Some(now), (now.reboot_count + 1) as u32),
                rest,
            );
        }
    }
}

/// A marker is of the phase that was entered, and says of a restart that it was asked for only once
/// it was; asking changes nothing else of it but the count.
pub proof fn law_a_marker_is_of_its_phase(
    found: Option<MarkerView>,
    app: Seq<char>,
    version: Seq<char>,
    phase: Seq<char>,
    count: u32,
)
    ensures
        ({
            let now = entered(found, app, version, phase);
            let asked = charged(Some(now), count);
            &&& now.app == app && now.version == version && now.phase == phase
            &&& !now.requested
            &&& found is None ==> now.reboot_count == 0
            &&& asked.app == app && asked.version == version && asked.phase == phase
            &&& asked.requested
            &&& asked.reboot_count == count
        }),
        charged(found, count).requested,
        charged(found, count).reboot_count == count,
{
}

/// A restart is asked for by `-r`, `--reboot` and `/r`, the last in either case, anywhere among the
/// arguments, and by nothing else.
pub proof fn law_what_asks_for_a_restart(args: Seq<Seq<char>>)
    ensures
        asks_restart(args) <==> args.contains(seq!['-', 'r']) || args.contains("--reboot"@)
            || args.contains(seq!['/', 'r']) || args.contains(seq!['/', 'R']),
{
    assert forall|arg: Seq<char>| #[trigger] restart_form(arg) <==> arg == seq!['-', 'r'] || arg
        == "--reboot"@ || arg == seq!['/', 'r'] || arg == seq!['/', 'R'] by {
        lemma_restart_form(arg);
    }
    if asks_restart(args) {
        let i = choose|i: int| 0 <= i < args.len() && restart_form(#[trigger] args[i]);
        assert(args.contains(args[i]));
    }
    if args.contains(seq!['-', 'r']) {
        let i = args.index_of(seq!['-', 'r']);
        assert(restart_form(args[i]));
    }
    if args.contains("--reboot"@) {
        let i = args.index_of("--reboot"@);
        assert(restart_form(args[i]));
    }
    if args.contains(seq!['/', 'r']) {
        let i = args.index_of(seq!['/', 'r']);
        assert(restart_form(args[i]));
    }
    if args.contains(seq!['/', 'R']) {
        let i = args.index_of(seq!['/', 'R']);
        assert(restart_form(args[i]));
    }
}

proof fn lemma_restart_form(arg: Seq<char>)
    ensures
        restart_form(arg) <==> arg == seq!['-', 'r'] || arg == "--reboot"@ || arg == seq!['/', 'r']
            || arg == seq!['/', 'R'],
{
    reveal_strlit("-r");
    reveal_strlit("/r");
    assert("-r"@ =~= seq!['-', 'r']);
    assert("/r"@ =~= seq!['/', 'r']);
    assert(lower(arg).len() == arg.len());
    if arg.len() == 2 {
        crate::text::law_case_is_changed_letter_by_letter(arg, 0);
        crate::text::law_case_is_changed_letter_by_letter(arg, 1);
        if lower(arg) == "/r"@ {
            assert(lower(arg)[0] == '/' && lower(arg)[1] == 'r');
            assert(arg[0] == '/');
            assert(arg[1] == 'r' || arg[1] == 'R');
            assert(arg =~= seq!['/', arg[1]]);
        }
        if arg == seq!['/', 'r'] || arg == seq!['/', 'R'] {
            assert(lower(arg) =~= "/r"@);
        }
    }
}

/// A stand-in for a restart is told by its mark, and is the file behind it.
pub proof fn law_a_stand_in_is_told_by_its_mark(path: Seq<char>, value: Seq<char>)
    ensures
        fake_file("fake:"@ + path) == Some(path),
        (forall|rest: Seq<char>| value != #[trigger] ("fake:"@ + rest)) ==> fake_file(value) is None,
{
    reveal_strlit("fake:");
    let fake = "fake:"@ + path;
    assert(fake.subrange(0, 5) =~= "fake:"@);
    assert(fake.subrange(5, fake.len() as int) =~= path);
    if stands_at(value, "fake:"@, 0) {
        assert(value =~= "fake:"@ + value.skip(5));
    }
}

/// A marker is shown as it is.
pub proof fn law_a_marker_is_shown_as_it_is(marker: PhaseMarker)
    ensures
        marker@.app == marker.app@,
        marker@.version == marker.version@,
        marker@.phase == marker.phase@,
        marker@.reboot_count == marker.reboot_count,
        marker@.requested == marker.requested,
        found_marker(Some(marker)) == Some(marker@),
        found_marker(None) is None,
{
}

/// A phase may ask for a restart only while it has had fewer than five.
pub proof fn law_a_restart_is_granted_below_five(phase: PhaseReboot)
    requires
        phase.wf(),
        phase.granted() is Some,
    ensures
        phase.count() < 5,
{
}

} // verus!
