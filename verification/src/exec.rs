//! Running a command: its settings, its outcome, and the decisions made while it runs.
//!
//! Starting processes, reading pipes and sending signals is left to the caller. What is read,
//! when a run is over and how it ended is decided here.

use vstd::prelude::*;
use vstd::utf8::*;

use crate::cancel::CancelState;
use crate::capture::Capture;
use crate::number;
use crate::paths::FsPath;
use crate::text;
use crate::time::{Elapsed, Timestamp};

verus! {

/// Default limit on captured output, in bytes. A safeguard against a command that keeps
/// printing forever.
pub const DEFAULT_MAX_OUTPUT_BYTES: usize = 0x80_0000;

/// Execution settings.
#[derive(Debug, Clone)]
pub struct ExecOptions {
    /// Shell the command is handed to.
    pub shell: FsPath,
    /// Working directory.
    pub cwd: FsPath,
    /// Deadline for the run. `None` means no limit.
    pub timeout: Option<Elapsed>,
    /// Limit on captured output in bytes. Anything beyond it is discarded.
    pub max_output_bytes: usize,
}

impl ExecOptions {
    /// Settings for runs in `cwd`, with the shell that the environment names, or `/bin/sh`.
    pub fn new(cwd: FsPath, shell: Option<FsPath>) -> (options: ExecOptions)
        ensures
            options.shell@ == (match shell {
                Some(s) => s@,
                None => encode_utf8("/bin/sh"@),
            }),
            options.cwd@ == cwd@,
            options.timeout is None,
            options.max_output_bytes == DEFAULT_MAX_OUTPUT_BYTES,
            options.max_output_bytes == 8 * 1024 * 1024,
    {
        let shell = match shell {
            Some(shell) => shell,
            None => FsPath::from_text("/bin/sh"),
        };
        ExecOptions { shell, cwd, timeout: None, max_output_bytes: DEFAULT_MAX_OUTPUT_BYTES }
    }

    /// The same settings once more.
    pub fn duplicate(&self) -> (copy: ExecOptions)
        ensures
            copy.shell@ == self.shell@,
            copy.cwd@ == self.cwd@,
            copy.timeout == self.timeout,
            copy.max_output_bytes == self.max_output_bytes,
    {
        ExecOptions {
            shell: self.shell.duplicate(),
            cwd: self.cwd.duplicate(),
            timeout: self.timeout,
            max_output_bytes: self.max_output_bytes,
        }
    }
}

/// What is said of a working directory that does not exist.
pub open spec fn missing_directory(cwd: Seq<char>) -> Seq<char> {
    "working directory does not exist: "@ + cwd
}

/// What is said of a working directory that does not exist.
pub fn missing_directory_message(cwd: &str) -> (message: String)
    ensures
        message@ == missing_directory(cwd@),
{
    let mut message = "working directory does not exist: ".to_owned();
    message.append(cwd);
    message
}

/// A request to stop a run, and the process group it reaches.
///
/// The command has a process group of its own, so that the front end alone decides whether it
/// is stopped. The group is known from when the command was started until it was reaped: after
/// that, its number may name any other process.
#[derive(Debug)]
pub struct Canceller {
    requested: bool,
    group: i32,
}

impl Canceller {
    /// Whether a stop has been asked for.
    pub closed spec fn is_requested(&self) -> bool {
        self.requested
    }

    /// The process group of the running command; zero while nothing runs.
    pub closed spec fn running(&self) -> i32 {
        self.group
    }

    /// What this canceller knows.
    pub open spec fn state(&self) -> CancelState {
        CancelState { requested: self.is_requested(), group: self.running() }
    }

    /// Nothing runs, and nothing has been asked for.
    pub fn new() -> (canceller: Canceller)
        ensures
            !canceller.is_requested(),
            canceller.running() == 0,
    {
        Canceller { requested: false, group: 0 }
    }

    /// Asks the running command to stop. Hands out the process group to kill, if one is
    /// running; a command that has not been started yet is stopped by the run itself, which
    /// looks at the request before each poll.
    pub fn cancel(&mut self) -> (kill: Option<i32>)
        ensures
            final(self).is_requested(),
            final(self).running() == old(self).running(),
            kill == (if old(self).running() == 0 {
                None
            } else {
                Some(old(self).running())
            }),
    {
        self.requested = true;
        if self.group == 0 {
            None
        } else {
            Some(self.group)
        }
    }

    /// Whether a stop has been asked for.
    pub fn is_cancelled(&self) -> (cancelled: bool)
        ensures
            cancelled == self.is_requested(),
    {
        self.requested
    }

    /// The process group of the running command; zero while nothing runs.
    pub fn group(&self) -> (group: i32)
        ensures
            group == self.running(),
    {
        self.group
    }

    /// Remembers the process group of a command that was started.
    pub fn set_group(&mut self, pid: i32)
        ensures
            final(self).running() == pid,
            final(self).is_requested() == old(self).is_requested(),
    {
        self.group = pid;
    }

    /// Polls the command, and forgets its group as soon as it has ended.
    ///
    /// A poll that reports an end has reaped the command, so its group must not be killed any
    /// more.
    pub fn poll_with_group<T, E, F: FnOnce() -> Result<Option<T>, E>>(&mut self, poll: F) -> (status:
        Result<Option<T>, E>)
        requires
            call_requires(poll, ()),
        ensures
            call_ensures(poll, (), status),
            final(self).is_requested() == old(self).is_requested(),
            final(self).running() == (if status is Ok && status->Ok_0 is Some {
                0
            } else {
                old(self).running()
            }),
    {
        let status = poll();
        match &status {
            Ok(Some(_)) => {
                self.group = 0;
            },
            _ => {},
        }
        status
    }

    /// Forgets the process group of a command that is killed and reaped now.
    pub fn forget(&mut self)
        ensures
            final(self).running() == 0,
            final(self).is_requested() == old(self).is_requested(),
    {
        self.group = 0;
    }
}

impl Default for Canceller {
    /// Nothing runs, and nothing has been asked for.
    fn default() -> (canceller: Canceller)
        ensures
            !canceller.is_requested(),
            canceller.running() == 0,
    {
        Canceller::new()
    }
}

/// The outcome of a single run.
#[derive(Debug, Clone)]
pub struct ExecOutcome {
    /// When the run started, in local time.
    pub started_at: Timestamp,
    /// How long the run took.
    pub duration: Elapsed,
    /// Exit code. `None` when the process was ended by a signal.
    pub exit_code: Option<i32>,
    /// Standard output and standard error, as they came.
    pub output: String,
    /// Whether the run was cut off by the timeout.
    pub timed_out: bool,
    /// Whether the run was stopped through a [`Canceller`].
    pub cancelled: bool,
    /// Whether the output was cut at the limit.
    pub truncated: bool,
}

/// A short description of how a run ended.
pub open spec fn status_of(timed_out: bool, cancelled: bool, exit_code: Option<i32>) -> Seq<char> {
    if timed_out {
        "timeout"@
    } else if cancelled {
        "cancelled"@
    } else {
        match exit_code {
            Some(code) => "exit "@ + number::signed_decimal(code as int),
            None => "signaled"@,
        }
    }
}

impl ExecOutcome {
    /// Whether the run counts as successful.
    pub open spec fn succeeded(&self) -> bool {
        !self.timed_out && !self.cancelled && self.exit_code == Some(0i32)
    }

    /// A short description of how the run ended.
    pub open spec fn status(&self) -> Seq<char> {
        status_of(self.timed_out, self.cancelled, self.exit_code)
    }

    /// Whether the run counts as successful.
    pub fn is_success(&self) -> (success: bool)
        ensures
            success == self.succeeded(),
    {
        match self.exit_code {
            Some(code) => !self.timed_out && !self.cancelled && code == 0,
            None => false,
        }
    }

    /// A short description of how the run ended.
    pub fn status_text(&self) -> (text: String)
        ensures
            text@ == self.status(),
    {
        if self.timed_out {
            return "timeout".to_owned();
        }
        if self.cancelled {
            return "cancelled".to_owned();
        }
        match self.exit_code {
            Some(code) => {
                let mut text = "exit ".to_owned();
                text.append(number::write_signed(code).as_str());
                text
            },
            None => "signaled".to_owned(),
        }
    }
}

/// What the caller has to do next while a command runs.
#[derive(Debug, Clone, Copy, PartialEq, Eq, Structural)]
pub enum Watch {
    /// Ask the canceller whether a stop has been asked for.
    Ask,
    /// Poll the command.
    Poll,
    /// Read how much time has passed.
    Clock,
    /// Wait a moment.
    Rest,
    /// Kill the process group and reap the command.
    Kill(Stop),
    /// The run is over.
    Over(Ending),
}

/// Why a command is killed.
#[derive(Debug, Clone, Copy, PartialEq, Eq, Structural)]
pub enum Stop {
    /// A stop was asked for.
    Cancelled,
    /// Its time was up.
    TimedOut,
}

/// How a run ended.
#[derive(Debug, Clone, Copy, PartialEq, Eq, Structural)]
pub struct Ending {
    pub exit_code: Option<i32>,
    pub timed_out: bool,
    pub cancelled: bool,
}

/// What the caller has found out.
#[derive(Debug, Clone, Copy)]
pub enum Report {
    /// Whether a stop has been asked for.
    Asked(bool),
    /// The exit code of a command that has ended; nothing for one that still runs.
    Polled(Option<Option<i32>>),
    /// How much time has passed since the start.
    Clocked(Elapsed),
    /// A moment has passed.
    Rested,
    /// The exit code of a command that was killed.
    Reaped(Option<i32>),
}

/// What comes next. A stop is looked for before the command is polled: a command that was
/// stopped is found dead by a poll, and would look as if some signal had ended it. A report that
/// was not asked for changes nothing.
pub open spec fn watch_after(now: Watch, report: Report, timeout: Option<Elapsed>) -> Watch {
    match (now, report) {
        (Watch::Ask, Report::Asked(requested)) => if requested {
            Watch::Kill(Stop::Cancelled)
        } else {
            Watch::Poll
        },
        (Watch::Poll, Report::Polled(status)) => match status {
            Some(exit_code) => Watch::Over(
                Ending { exit_code, timed_out: false, cancelled: false },
            ),
            None => if timeout is Some {
                Watch::Clock
            } else {
                Watch::Rest
            },
        },
        (Watch::Clock, Report::Clocked(elapsed)) => if timeout is Some && elapsed@ >= timeout->0@ {
            Watch::Kill(Stop::TimedOut)
        } else {
            Watch::Rest
        },
        (Watch::Rest, Report::Rested) => Watch::Ask,
        (Watch::Kill(stop), Report::Reaped(exit_code)) => Watch::Over(
            Ending {
                exit_code,
                timed_out: stop == Stop::TimedOut,
                cancelled: stop == Stop::Cancelled,
            },
        ),
        _ => now,
    }
}

/// Decides what comes next.
pub fn next_watch(now: Watch, report: Report, timeout: Option<Elapsed>) -> (next: Watch)
    ensures
        next == watch_after(now, report, timeout),
{
    match (now, report) {
        (Watch::Ask, Report::Asked(requested)) => {
            if requested {
                Watch::Kill(Stop::Cancelled)
            } else {
                Watch::Poll
            }
        },
        (Watch::Poll, Report::Polled(Some(exit_code))) => {
            Watch::Over(Ending { exit_code, timed_out: false, cancelled: false })
        },
        (Watch::Poll, Report::Polled(None)) => {
            if timeout.is_some() {
                Watch::Clock
            } else {
                Watch::Rest
            }
        },
        (Watch::Clock, Report::Clocked(elapsed)) => {
            match timeout {
                Some(limit) => {
                    if elapsed.reaches(limit) {
                        Watch::Kill(Stop::TimedOut)
                    } else {
                        Watch::Rest
                    }
                },
                None => Watch::Rest,
            }
        },
        (Watch::Rest, Report::Rested) => Watch::Ask,
        (Watch::Kill(stop), Report::Reaped(exit_code)) => {
            let timed_out = match stop {
                Stop::TimedOut => true,
                Stop::Cancelled => false,
            };
            Watch::Over(Ending { exit_code, timed_out, cancelled: !timed_out })
        },
        _ => now,
    }
}

/// What comes next after all of `reports`, from the start of a run on.
pub open spec fn watched(reports: Seq<Report>, timeout: Option<Elapsed>) -> Watch
    decreases reports.len(),
{
    if reports.len() == 0 {
        Watch::Ask
    } else {
        watch_after(watched(reports.drop_last(), timeout), reports.last(), timeout)
    }
}

/// Whether one of the reports says that a stop has been asked for.
pub open spec fn was_asked(reports: Seq<Report>) -> bool {
    exists|i: int| 0 <= i < reports.len() && reports[i] == Report::Asked(true)
}

/// Whether one of the reports says that the time was up.
pub open spec fn time_was_up(reports: Seq<Report>, timeout: Option<Elapsed>) -> bool {
    timeout is Some && exists|i: int|
        0 <= i < reports.len() && (#[trigger] reports[i] is Clocked) && reports[i]->Clocked_0@
            >= timeout->0@
}

/// Whether one of the reports says that the command ended by itself, with this exit code.
pub open spec fn ended_with(reports: Seq<Report>, exit_code: Option<i32>) -> bool {
    exists|i: int| 0 <= i < reports.len() && reports[i] == Report::Polled(Some(exit_code))
}

/// However a run goes, it ends as cancelled only if a stop was asked for, as timed out only if
/// its time was up, and never as both; otherwise the command has ended by itself, with the exit
/// code that is reported.
pub proof fn law_ending_has_its_reason(reports: Seq<Report>, timeout: Option<Elapsed>)
    ensures
        watched(reports, timeout) matches Watch::Over(ending) ==> {
            &&& ending.cancelled ==> was_asked(reports)
            &&& ending.timed_out ==> time_was_up(reports, timeout)
            &&& !(ending.cancelled && ending.timed_out)
            &&& !ending.cancelled && !ending.timed_out ==> ended_with(reports, ending.exit_code)
        },
        watched(reports, timeout) == Watch::Kill(Stop::Cancelled) ==> was_asked(reports),
        watched(reports, timeout) == Watch::Kill(Stop::TimedOut) ==> time_was_up(reports, timeout),
    decreases reports.len(),
{
    if reports.len() > 0 {
        let before = reports.drop_last();
        let n = reports.len() - 1;
        law_ending_has_its_reason(before, timeout);
        assert(reports[n] == reports.last());
        if was_asked(before) {
            let i = choose|i: int| 0 <= i < before.len() && before[i] == Report::Asked(true);
            assert(reports[i] == before[i]);
        }
        if time_was_up(before, timeout) {
            let i = choose|i: int|
                0 <= i < before.len() && (#[trigger] before[i] is Clocked) && before[i]->Clocked_0@
                    >= timeout->0@;
            assert(reports[i] == before[i]);
        }
        match watched(before, timeout) {
            Watch::Over(ending) => {
                if ended_with(before, ending.exit_code) {
                    let i = choose|i: int|
                        0 <= i < before.len() && before[i] == Report::Polled(
                            Some(ending.exit_code),
                        );
                    assert(reports[i] == before[i]);
                }
            },
            _ => {},
        }
    }
}

/// Puts together the outcome of a run that is over.
///
/// A stop that was asked for between the last look and the poll ends the command without the
/// run having noticed. So a command that a signal ended after a stop was asked for counts as
/// cancelled.
pub fn outcome_of(
    started_at: Timestamp,
    duration: Elapsed,
    ending: Ending,
    requested: bool,
    capture: &Capture,
) -> (outcome: ExecOutcome)
    ensures
        outcome.started_at@ == started_at@,
        outcome.duration@ == duration@,
        outcome.exit_code == ending.exit_code,
        outcome.output@ == text::lossy_text(capture.bytes()),
        valid_utf8(capture.bytes()) ==> outcome.output@ == decode_utf8(capture.bytes()),
        outcome.timed_out == ending.timed_out,
        outcome.cancelled == (ending.cancelled || (requested && ending.exit_code is None)),
        outcome.cancelled == counts_as_cancelled(ending, requested),
        outcome.truncated == capture.is_cut(),
{
    let cancelled = ending.cancelled || (requested && ending.exit_code.is_none());
    ExecOutcome {
        started_at,
        duration,
        exit_code: ending.exit_code,
        output: capture.output(),
        timed_out: ending.timed_out,
        cancelled,
        truncated: capture.is_truncated(),
    }
}

/// A time limit is kept, however long it is: a run that reads the clock and is told that the limit
/// is reached kills its command for it, and then counts as timed out. Before that, it goes on.
pub proof fn law_time_limit_is_kept(limit: Elapsed, elapsed: Elapsed, exit_code: Option<i32>)
    ensures
        elapsed@ >= limit@ ==> watch_after(Watch::Clock, Report::Clocked(elapsed), Some(limit))
            == Watch::Kill(Stop::TimedOut),
        elapsed@ < limit@ ==> watch_after(Watch::Clock, Report::Clocked(elapsed), Some(limit))
            == Watch::Rest,
        watch_after(Watch::Poll, Report::Polled(None), Some(limit)) == Watch::Clock,
        watch_after(Watch::Kill(Stop::TimedOut), Report::Reaped(exit_code), Some(limit))
            == Watch::Over(Ending { exit_code, timed_out: true, cancelled: false }),
{
}

/// A stop is heeded, whatever the time limit is: a run that is told of one kills its command for
/// it, and then counts as cancelled.
pub proof fn law_stop_is_heeded(timeout: Option<Elapsed>, exit_code: Option<i32>)
    ensures
        watch_after(Watch::Ask, Report::Asked(true), timeout) == Watch::Kill(Stop::Cancelled),
        watch_after(Watch::Kill(Stop::Cancelled), Report::Reaped(exit_code), timeout)
            == Watch::Over(Ending { exit_code, timed_out: false, cancelled: true }),
{
}

/// A command that ends by itself ends the run, with the exit code that it had, and one that still
/// runs is asked about again: after each rest, a stop is looked for before the command is polled.
pub proof fn law_command_is_watched_until_it_ends(
    timeout: Option<Elapsed>,
    elapsed: Elapsed,
    exit_code: Option<i32>,
)
    ensures
        watch_after(Watch::Poll, Report::Polled(Some(exit_code)), timeout) == Watch::Over(
            Ending { exit_code, timed_out: false, cancelled: false },
        ),
        watch_after(Watch::Poll, Report::Polled(None), timeout) is Rest || watch_after(
            Watch::Poll,
            Report::Polled(None),
            timeout,
        ) is Clock,
        timeout is None ==> watch_after(Watch::Poll, Report::Polled(None), timeout) == Watch::Rest,
        timeout is None ==> watch_after(Watch::Clock, Report::Clocked(elapsed), timeout)
            == Watch::Rest,
        watch_after(Watch::Rest, Report::Rested, timeout) == Watch::Ask,
        watch_after(Watch::Ask, Report::Asked(false), timeout) == Watch::Poll,
{
}

/// However a run has gone so far, the time limit and a stop end it at the next look.
pub proof fn law_run_ends_when_it_must(
    reports: Seq<Report>,
    timeout: Option<Elapsed>,
    report: Report,
    exit_code: Option<i32>,
)
    ensures
        watched(reports, timeout) is Clock && report is Clocked && timeout is Some
            && report->Clocked_0@ >= timeout->0@ ==> watched(
            reports.push(report).push(Report::Reaped(exit_code)),
            timeout,
        ) == Watch::Over(Ending { exit_code, timed_out: true, cancelled: false }),
        watched(reports, timeout) is Ask && report == Report::Asked(true) ==> watched(
            reports.push(report).push(Report::Reaped(exit_code)),
            timeout,
        ) == Watch::Over(Ending { exit_code, timed_out: false, cancelled: true }),
        watched(reports, timeout) is Poll && report == Report::Polled(Some(exit_code)) ==> watched(
            reports.push(report),
            timeout,
        ) == Watch::Over(Ending { exit_code, timed_out: false, cancelled: false }),
{
    let once = reports.push(report);
    let twice = once.push(Report::Reaped(exit_code));
    assert(once.drop_last() =~= reports);
    assert(twice.drop_last() =~= once);
    assert(watched(once, timeout) == watch_after(watched(reports, timeout), report, timeout));
    assert(watched(twice, timeout) == watch_after(
        watched(once, timeout),
        Report::Reaped(exit_code),
        timeout,
    ));
}

/// A report that was not asked for changes nothing, and a run that is over stays so.
pub proof fn law_other_reports_change_nothing(
    now: Watch,
    report: Report,
    timeout: Option<Elapsed>,
)
    requires
        match now {
            Watch::Ask => !(report is Asked),
            Watch::Poll => !(report is Polled),
            Watch::Clock => !(report is Clocked),
            Watch::Rest => !(report is Rested),
            Watch::Kill(_) => !(report is Reaped),
            Watch::Over(_) => true,
        },
    ensures
        watch_after(now, report, timeout) == now,
{
}

/// The status of a run tells how it ended: a time limit comes before a stop, a stop before an exit
/// code, and the exit code can be read off it. A run counts as successful exactly if its status is
/// that of a command that exited with zero by itself.
pub proof fn law_status_tells_how_it_ended(a: ExecOutcome, b: ExecOutcome)
    ensures
        a.timed_out ==> a.status() == "timeout"@,
        !a.timed_out && a.cancelled ==> a.status() == "cancelled"@,
        !a.timed_out && !a.cancelled && a.exit_code is None ==> a.status() == "signaled"@,
        !a.timed_out && !a.cancelled && a.exit_code is Some ==> text::begins_with(
            a.status(),
            "exit "@,
        ),
        a.status() == b.status() ==> a.timed_out == b.timed_out && (!a.timed_out ==> a.cancelled
            == b.cancelled && (!a.cancelled ==> a.exit_code == b.exit_code)),
        a.succeeded() <==> a.status() == "exit 0"@,
        !a.timed_out && !a.cancelled && a.exit_code is Some && a.exit_code->0 >= 0
            ==> number::value(a.status().skip(5)) == a.exit_code->0,
        a.succeeded() <==> !a.timed_out && !a.cancelled && a.exit_code == Some(0i32),
{
    lemma_status(a);
    lemma_status(b);
    if a.status() == b.status() && !a.timed_out && !b.timed_out && !a.cancelled && !b.cancelled
        && a.exit_code is Some && b.exit_code is Some {
        let m = a.exit_code->0 as int;
        let n = b.exit_code->0 as int;
        assert(a.status().skip(5) =~= number::signed_decimal(m));
        assert(b.status().skip(5) =~= number::signed_decimal(n));
        number::lemma_signed_decimal_injective(m, n);
    }
    reveal_strlit("exit 0");
    reveal_strlit("exit ");
    assert("exit 0"@ =~= "exit "@ + number::signed_decimal(0)) by {
        assert(number::decimal(0) =~= seq!['0']);
    }
    if a.status() == "exit 0"@ {
        assert(a.status().skip(5) =~= number::signed_decimal(a.exit_code->0 as int));
        assert("exit 0"@.skip(5) =~= number::signed_decimal(0));
        number::lemma_signed_decimal_injective(a.exit_code->0 as int, 0);
    }
    if !a.timed_out && !a.cancelled && a.exit_code is Some && a.exit_code->0 >= 0 {
        let m = a.exit_code->0 as int;
        assert(a.status().skip(5) =~= number::signed_decimal(m));
        number::lemma_decimal(m as nat);
    }
}

/// The first letters of a status.
proof fn lemma_status(a: ExecOutcome)
    ensures
        a.status().len() > 4,
        a.status()[0] == (if a.timed_out {
            't'
        } else if a.cancelled {
            'c'
        } else if a.exit_code is Some {
            'e'
        } else {
            's'
        }),
        a.status()[0] == 'e' ==> text::begins_with(a.status(), "exit "@),
        a.status()[0] == 'e' ==> a.status() == "exit "@ + number::signed_decimal(
            a.exit_code->0 as int,
        ),
        "exit 0"@[0] == 'e',
        "exit "@.len() == 5,
{
    reveal_strlit("timeout");
    reveal_strlit("cancelled");
    reveal_strlit("signaled");
    reveal_strlit("exit ");
    reveal_strlit("exit 0");
    if a.exit_code is Some && !a.timed_out && !a.cancelled {
        assert(a.status().take(5) =~= "exit "@);
    }
}

/// Whether a run that is over counts as cancelled.
pub open spec fn counts_as_cancelled(ending: Ending, requested: bool) -> bool {
    ending.cancelled || (requested && ending.exit_code is None)
}

/// A run counts as cancelled if it was killed for a stop, and also if a signal ended its command
/// once a stop was asked for; a command that exited by itself does not count as cancelled, whatever
/// was asked for, and without a stop nothing does.
pub proof fn law_only_a_stop_cancels(exit_code: i32, timed_out: bool, requested: bool)
    ensures
        counts_as_cancelled(
            Ending { exit_code: Some(exit_code), timed_out, cancelled: true },
            requested,
        ),
        counts_as_cancelled(Ending { exit_code: None, timed_out, cancelled: false }, true),
        !counts_as_cancelled(Ending { exit_code: None, timed_out, cancelled: false }, false),
        !counts_as_cancelled(
            Ending { exit_code: Some(exit_code), timed_out, cancelled: false },
            requested,
        ),
{
}

} // verus!
