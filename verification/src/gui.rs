//! The desktop app: what the window shows, and how its commands follow each other.
//!
//! The window itself, threads and events are left to the caller.

use vstd::prelude::*;

use crate::cancel;
use crate::cancel::{Act, CancelHandle, CancelState, Cancellers};
use crate::exec::ExecOutcome;
use crate::live;
use crate::number;
use crate::parse;
use crate::parse::{Cell, CellModel, Document};
use crate::paths;
use crate::paths::FsPath;
use crate::session::Session;
use crate::text;
use crate::writeback;

verus! {

/// Event that carries the document.
pub const EVENT_DOCUMENT: &'static str = "runandlog://document";

/// Event that marks the start of a run.
pub const EVENT_STARTED: &'static str = "runandlog://started";

/// Event that carries a piece of the output of a running command.
pub const EVENT_OUTPUT: &'static str = "runandlog://output";

/// Event that marks the end of a run.
pub const EVENT_FINISHED: &'static str = "runandlog://finished";

/// How much of one piece of output is sent to the window, in bytes. The window shows the end of
/// what it was sent, so a longer piece is cut to its end.
pub const MAX_OUTPUT_CHUNK_BYTES: usize = 0x1_0000;

/// What is said to a second run.
pub const ALREADY_RUNNING: &'static str = "A command is already running.";

/// What is said to a reload while a command runs.
pub const NOT_RELOADED: &'static str = "A command is running, so the file cannot be reloaded yet.";

/// What is said once the session cannot be used any more.
pub const UNUSABLE: &'static str =
    "The session is no longer usable because a background task panicked.";

/// A cell as the window shows it.
#[derive(Debug, Clone)]
pub struct CellView {
    /// Number of the cell, from zero.
    pub index: usize,
    /// Number of the cell, as shown.
    pub number: usize,
    pub lang: String,
    pub command: String,
    /// Destination of the result, when the cell designates one.
    pub out_file: Option<String>,
    /// The result of the last run, without the markers.
    pub result: Option<String>,
}

/// The document as the window shows it.
#[derive(Debug, Clone)]
pub struct DocumentView {
    pub path: String,
    pub cells: Vec<CellView>,
}

/// A piece of what a running command has printed, with the cell it belongs to.
#[derive(Debug, Clone)]
pub struct OutputChunk {
    pub index: usize,
    pub text: String,
}

/// How a run ended.
#[derive(Debug, Clone)]
pub struct RunReport {
    pub index: usize,
    pub status: String,
    pub success: bool,
    /// Whether the run was stopped from the window.
    pub cancelled: bool,
}

/// How a run of all cells ended.
#[derive(Debug, Clone)]
pub struct BatchReport {
    pub reports: Vec<RunReport>,
    /// Whether it was stopped; that can happen between two cells, too.
    pub stopped: bool,
}

impl CellView {
    /// Whether this shows the `i`-th cell of the document `s`.
    pub open spec fn shows(&self, s: Seq<char>, cell: CellModel, i: int) -> bool {
        &&& self.index == i
        &&& self.number == i + 1
        &&& self.lang@ == cell.lang
        &&& self.command@ == cell.command
        &&& text::opt_text(self.out_file) == cell.out_file
        &&& text::opt_text(self.result) == writeback::result_of(s, cell)
    }
}

fn cell_view(doc: &Document, i: usize) -> (view: CellView)
    requires
        doc.wf(),
        i < doc.cells@.len(),
    ensures
        view.shows(doc.text@, parse::cells_of(doc.text@)[i as int], i as int),
{
    let cell: &Cell = &doc.cells[i];
    assert(cell.index == i);
    assert(cell.describes(doc.text@, parse::cells_of(doc.text@)[i as int]));
    let out_file = match &cell.out_file {
        Some(path) => Some(path.as_str().to_owned()),
        None => None,
    };
    let result = match doc.result_at(i) {
        Some(r) => Some(r.to_owned()),
        None => None,
    };
    assert(i < doc.cells.len());
    CellView {
        index: cell.index,
        number: cell.display_number(),
        lang: cell.lang.as_str().to_owned(),
        command: cell.command.as_str().to_owned(),
        out_file,
        result,
    }
}

/// The document of a session as the window shows it. `path` is the file as text.
pub fn document_view(session: &Session, path: &str) -> (view: DocumentView)
    ensures
        view.path@ == path@,
        view.cells@.len() == session.cells().len(),
        forall|i: int|
            0 <= i < view.cells@.len() ==> (#[trigger] view.cells@[i]).shows(
                session.document().text@,
                session.cells()[i],
                i,
            ),
{
    let doc = session.doc();
    let mut cells: Vec<CellView> = Vec::new();
    for i in 0..doc.cells.len()
        invariant
            doc.wf(),
            cells@.len() == i,
            forall|j: int|
                0 <= j < i ==> (#[trigger] cells@[j]).shows(
                    doc.text@,
                    parse::cells_of(doc.text@)[j],
                    j,
                ),
    {
        cells.push(cell_view(doc, i));
    }
    DocumentView { path: path.to_owned(), cells }
}

/// A piece of output as it is sent to the window.
pub fn output_chunk(index: usize, chunk: &str) -> (sent: OutputChunk)
    ensures
        sent.index == index,
        sent.text@ == live::tail_of(chunk@, MAX_OUTPUT_CHUNK_BYTES as nat),
        sent.text@ == live::tail_of(chunk@, 64 * 1024),
{
    OutputChunk { index, text: live::tail(chunk, MAX_OUTPUT_CHUNK_BYTES).to_owned() }
}

/// The report of a run whose result was written back.
pub fn report_of(index: usize, outcome: &ExecOutcome) -> (report: RunReport)
    ensures
        report.index == index,
        report.status@ == outcome.status(),
        report.success == outcome.succeeded(),
        report.cancelled == outcome.cancelled,
{
    RunReport {
        index,
        status: outcome.status_text(),
        success: outcome.is_success(),
        cancelled: outcome.cancelled,
    }
}

/// The operation in flight, if any, and what has been asked of it.
///
/// A stop belongs to the operation that it was asked for during.
#[derive(Debug)]
pub struct Operation {
    /// Whether a run or a reload is in flight.
    pub busy: bool,
    /// Whether a stop was asked for during it. A batch spends time between two cells, where no
    /// command runs that could be stopped.
    pub stop_requested: bool,
    /// The handle of the command that runs right now.
    pub canceller: Option<CancelHandle>,
}

impl Operation {
    /// An operation that has just started: with a clean slate.
    pub open spec fn started() -> Operation {
        Operation { busy: true, stop_requested: false, canceller: None }
    }

    /// What is in flight once an operation was asked to start: that operation, unless another one
    /// is in flight.
    pub open spec fn asked_to_start(self) -> Operation {
        if self.busy {
            self
        } else {
            Operation::started()
        }
    }

    /// This operation once it has ended.
    pub open spec fn ended(self) -> Operation {
        Operation { busy: false, canceller: None, ..self }
    }

    /// This operation with a command that can be stopped, or with none.
    pub open spec fn armed(self, canceller: Option<CancelHandle>) -> Operation {
        Operation { canceller, ..self }
    }

    /// This operation once a stop was asked for.
    pub open spec fn asked_to_stop(self) -> Operation {
        Operation { stop_requested: self.stop_requested || self.busy, ..self }
    }

    /// Whose command a stop reaches: that of the command that runs right now, if an operation is
    /// in flight and a command runs.
    pub open spec fn to_cancel(self) -> Option<CancelHandle> {
        if self.busy {
            self.canceller
        } else {
            None
        }
    }

    /// The cancellers once a stop was asked for.
    pub open spec fn stopped_in(self, cancellers: Seq<CancelState>) -> Seq<CancelState> {
        match self.to_cancel() {
            Some(handle) => cancel::after(cancellers, Act::Cancel(handle@)),
            None => cancellers,
        }
    }

    /// Nothing is in flight.
    pub fn idle() -> (operation: Operation)
        ensures
            operation == (Operation { busy: false, stop_requested: false, canceller: None }),
    {
        Operation { busy: false, stop_requested: false, canceller: None }
    }

    /// Starts an operation, unless one is in flight.
    pub fn acquire(&mut self) -> (acquired: Result<(), &'static str>)
        ensures
            acquired is Ok <==> !old(self).busy,
            acquired matches Err(message) ==> message@ == ALREADY_RUNNING@,
            *final(self) == old(self).asked_to_start(),
    {
        if self.busy {
            return Err(ALREADY_RUNNING);
        }
        self.busy = true;
        self.stop_requested = false;
        self.canceller = None;
        Ok(())
    }

    /// Ends the operation.
    pub fn release(&mut self)
        ensures
            *final(self) == old(self).ended(),
    {
        self.busy = false;
        self.canceller = None;
    }

    /// Makes the handle of the command about to run known, or that none runs. Says whether a stop
    /// was asked for already, which the caller must heed.
    pub fn arm(&mut self, canceller: Option<CancelHandle>) -> (stop: bool)
        ensures
            stop == old(self).stop_requested,
            *final(self) == old(self).armed(canceller),
    {
        self.canceller = canceller;
        self.stop_requested
    }

    /// Asks the operation in flight to stop, and cancels its command. Says whether there was one,
    /// and hands out the process group to kill, if a command is running.
    pub fn stop(&mut self, cancellers: &mut Cancellers) -> (stopped: (bool, Option<i32>))
        requires
            old(self).to_cancel() matches Some(handle) ==> old(cancellers).holds(handle),
        ensures
            stopped.0 == old(self).busy,
            stopped.1 == (match old(self).to_cancel() {
                Some(handle) => cancel::to_kill(old(cancellers)@[handle@]),
                None => None,
            }),
            *final(self) == old(self).asked_to_stop(),
            final(cancellers)@ == old(self).stopped_in(old(cancellers)@),
    {
        if !self.busy {
            return (false, None);
        }
        self.stop_requested = true;
        match self.canceller {
            Some(handle) => (true, cancellers.cancel(handle)),
            None => (true, None),
        }
    }

    /// Whether a stop was asked for during the operation in flight.
    pub fn is_stop_requested(&self) -> (requested: bool)
        ensures
            requested == self.stop_requested,
    {
        self.stop_requested
    }
}

/// A stop lasts for the operation that it was asked for during: it is remembered while commands
/// come and go, so that it is not lost between two cells, and forgotten when the next operation
/// starts. It reaches the command that runs at that moment, and no other. A stop that is asked for
/// while nothing is in flight reaches nothing, and is not remembered at all.
pub proof fn law_stop_belongs_to_its_operation(
    operation: Operation,
    cancellers: Seq<CancelState>,
    first: CancelHandle,
    second: Option<CancelHandle>,
    i: int,
)
    requires
        0 <= first@ < cancellers.len(),
        0 <= i < cancellers.len(),
        i != first@,
    ensures
        operation.busy ==> operation.armed(Some(first)).asked_to_stop().armed(
            second,
        ).stop_requested,
        operation.busy ==> operation.armed(Some(first)).stopped_in(cancellers)[first@].requested,
        operation.armed(Some(first)).stopped_in(cancellers)[i] == cancellers[i],
        operation.armed(None).stopped_in(cancellers) == cancellers,
        !operation.ended().asked_to_start().stop_requested,
        !operation.busy ==> operation.asked_to_stop() == operation,
        !operation.busy ==> operation.stopped_in(cancellers) == cancellers,
{
}

/// An operation that was stopped leaves nothing behind for the next one. Once it has ended, the
/// next one starts, and no stop is asked of it; a new canceller that is armed for it is not
/// cancelled, while the one of the stopped command stays so, whatever was done in between. Until
/// it ends, no other operation starts, and to ask for one changes nothing.
pub proof fn law_next_operation_starts_clean(
    operation: Operation,
    cancellers: Seq<CancelState>,
    first: CancelHandle,
    second: CancelHandle,
    between: Seq<Act>,
    rest: Seq<Change>,
)
    requires
        operation.busy,
        0 <= first@ < cancellers.len(),
        second@ == cancel::performed(
            operation.armed(Some(first)).stopped_in(cancellers),
            between,
        ).len(),
        forall|i: int| 0 <= i < rest.len() ==> !(#[trigger] rest[i] is End),
    ensures
        ({
            let stopped = operation.armed(Some(first)).asked_to_stop();
            let reached = operation.armed(Some(first)).stopped_in(cancellers);
            let ended = stopped.ended();
            let next = ended.asked_to_start();
            let known = cancel::after(cancel::performed(reached, between), Act::Add);
            let later = operation_after(next.armed(Some(second)), rest);
            &&& stopped.busy && !ended.busy
            &&& next == Operation::started() && !next.stop_requested
            &&& !next.armed(Some(second)).stop_requested
            &&& !known[second@].requested
            &&& known[first@].requested
            &&& second@ != first@
            &&& later.busy && later.asked_to_start() == later
        }),
{
    let reached = operation.armed(Some(first)).stopped_in(cancellers);
    cancel::law_cancelled_stays_cancelled(reached, first@, between);
    let next = operation.armed(Some(first)).asked_to_stop().ended().asked_to_start();
    lemma_in_flight(next.armed(Some(second)), rest);
}

/// Something that happens to the operation in flight.
pub enum Change {
    /// Another one is asked to start.
    Start,
    /// A command is made known, or that none runs.
    Arm(Option<CancelHandle>),
    /// A stop is asked for.
    Stop,
    /// It ends.
    End,
}

/// The operation after all of `changes`.
pub open spec fn operation_after(operation: Operation, changes: Seq<Change>) -> Operation
    decreases changes.len(),
{
    if changes.len() == 0 {
        operation
    } else {
        let before = operation_after(operation, changes.drop_last());
        match changes.last() {
            Change::Start => before.asked_to_start(),
            Change::Arm(canceller) => before.armed(canceller),
            Change::Stop => before.asked_to_stop(),
            Change::End => before.ended(),
        }
    }
}

/// An operation is in flight until it ends.
proof fn lemma_in_flight(operation: Operation, changes: Seq<Change>)
    requires
        operation.busy,
        forall|i: int| 0 <= i < changes.len() ==> !(#[trigger] changes[i] is End),
    ensures
        operation_after(operation, changes).busy,
    decreases changes.len(),
{
    if changes.len() > 0 {
        let before = changes.drop_last();
        assert forall|i: int| 0 <= i < before.len() implies !(#[trigger] before[i] is End) by {
            assert(before[i] == changes[i]);
        }
        lemma_in_flight(operation, before);
        assert(!(changes[changes.len() - 1] is End));
    }
}

/// What is said of a cell that does not exist.
pub open spec fn no_cell(number: nat) -> Seq<char> {
    "There is no cell "@ + number::decimal(number) + "."@
}

/// Prepares the run of a cell: it must exist. Its command gets a canceller of its own, since one
/// that was stopped must not keep the next command from starting, and a stop that was asked for
/// before that reaches it at once.
pub fn begin_cell(
    operation: &mut Operation,
    cancellers: &mut Cancellers,
    session: &Session,
    index: usize,
) -> (begun: Result<CancelHandle, String>)
    requires
        index < usize::MAX,
    ensures
        begun is Ok <==> index < session.cells().len(),
        begun matches Ok(handle) ==> {
            let added = cancel::after(old(cancellers)@, Act::Add);
            &&& handle@ == old(cancellers)@.len()
            &&& *final(operation) == old(operation).armed(Some(handle))
            &&& final(cancellers)@ == (if old(operation).stop_requested {
                cancel::after(added, Act::Cancel(handle@))
            } else {
                added
            })
        },
        begun matches Err(message) ==> message@ == no_cell((index + 1) as nat) && *final(operation)
            == *old(operation) && final(cancellers)@ == old(cancellers)@,
{
    if index >= session.len() {
        let mut message = "There is no cell ".to_owned();
        message.append(number::write_decimal((index + 1) as u64).as_str());
        message.append(".");
        return Err(message);
    }
    let handle = cancellers.add_canceller();
    if operation.arm(Some(handle)) {
        // Nothing runs yet, so there is no process group to kill.
        let _ = cancellers.cancel(handle);
    }
    Ok(handle)
}

/// Prepares a reload, which must not happen during a run: a run notices that the file was edited
/// by comparing it with the document from before.
pub fn begin_reload(operation: &mut Operation) -> (begun: Result<(), &'static str>)
    ensures
        begun is Ok <==> !old(operation).busy,
        begun matches Err(message) ==> message@ == NOT_RELOADED@,
        *final(operation) == old(operation).asked_to_start(),
{
    match operation.acquire() {
        Ok(()) => Ok(()),
        Err(_) => Err(NOT_RELOADED),
    }
}

/// How the run of a cell went.
pub enum Run<'a> {
    /// The command ran, and its result was written back.
    Written(&'a ExecOutcome),
    /// The command ran, and its result was not written back, for this reason.
    Refused(&'a str),
    /// The shell did not start, for this reason.
    NotStarted(&'a str),
    /// The thread that ran it died, for this reason.
    Died(&'a str),
}

/// What is said of a run that went wrong.
pub open spec fn complaint(run: Run<'_>) -> Option<Seq<char>> {
    match run {
        Run::Written(_) => None,
        Run::Refused(error) => Some("Writing the result failed: "@ + error@),
        Run::NotStarted(error) => Some("The run failed: "@ + error@),
        Run::Died(error) => Some("The worker thread died unexpectedly: "@ + error@),
    }
}

/// The report of the run of a cell.
pub fn conclude_cell(index: usize, run: Run<'_>) -> (report: Result<RunReport, String>)
    ensures
        report is Ok <==> complaint(run) is None,
        report matches Err(message) ==> Some(message@) == complaint(run),
        run matches Run::Written(outcome) ==> report is Ok && report->Ok_0.index == index
            && report->Ok_0.status@ == outcome.status() && report->Ok_0.success
            == outcome.succeeded() && report->Ok_0.cancelled == outcome.cancelled,
{
    match run {
        Run::Written(outcome) => Ok(report_of(index, outcome)),
        Run::Refused(error) => {
            let mut message = "Writing the result failed: ".to_owned();
            message.append(error);
            Err(message)
        },
        Run::NotStarted(error) => {
            let mut message = "The run failed: ".to_owned();
            message.append(error);
            Err(message)
        },
        Run::Died(error) => {
            let mut message = "The worker thread died unexpectedly: ".to_owned();
            message.append(error);
            Err(message)
        },
    }
}

/// A run of all cells.
///
/// A command that fails does not stop it: its exit code is the result. A result that cannot be
/// written back does, and so does a stop.
#[derive(Debug)]
pub struct RunAll {
    /// How many cells there are.
    pub count: usize,
    /// The reports of the cells that have been run.
    pub reports: Vec<RunReport>,
    /// Whether it has been stopped.
    pub stopped: bool,
}

impl RunAll {
    /// Nothing has been run.
    pub fn new(count: usize) -> (all: RunAll)
        ensures
            all.count == count,
            all.reports@.len() == 0,
            !all.stopped,
    {
        RunAll { count, reports: Vec::new(), stopped: false }
    }

    /// The next cell to run. A stop is looked for before a cell is started: to start it only to
    /// kill it would replace its result with an empty one.
    pub fn next(&mut self, stop_requested: bool) -> (index: Option<usize>)
        ensures
            final(self).count == old(self).count,
            final(self).reports == old(self).reports,
            index == cell_after(
                old(self).reports@.len(),
                old(self).count as nat,
                old(self).stopped || stop_requested,
            ),
            ({
                let left = !old(self).stopped && old(self).reports@.len() < old(self).count;
                &&& index == (if left && !stop_requested {
                    Some(old(self).reports@.len() as usize)
                } else {
                    None
                })
                &&& final(self).stopped == (old(self).stopped || (left && stop_requested))
            }),
    {
        if self.stopped || self.reports.len() >= self.count {
            return None;
        }
        if stop_requested {
            self.stopped = true;
            return None;
        }
        Some(self.reports.len())
    }

    /// Takes note of a cell that has been run.
    pub fn ran(&mut self, report: RunReport)
        ensures
            final(self).count == old(self).count,
            final(self).reports@ == old(self).reports@.push(report),
            final(self).stopped == report.cancelled,
    {
        self.stopped = report.cancelled;
        self.reports.push(report);
    }

    /// The report of the whole. A stop that came while the last result was written back counts,
    /// too.
    pub fn finish(self, stop_requested: bool) -> (report: BatchReport)
        ensures
            report.reports == self.reports,
            report.stopped == (self.stopped || stop_requested),
    {
        BatchReport { reports: self.reports, stopped: self.stopped || stop_requested }
    }
}

/// Whether a variable of the environment names a display. An empty value does not.
pub open spec fn is_usable(value: Option<&[u8]>) -> bool {
    value matches Some(v) && v@.len() > 0
}

/// What is said when there is no display to open the window on.
pub const NO_DISPLAY: &'static str =
    "no display is available (DISPLAY and WAYLAND_DISPLAY are both unset), so the GUI cannot open; drop --gui to use the TUI";

/// Why the window cannot be opened, if it cannot.
pub fn display_reason(display: Option<&[u8]>, wayland: Option<&[u8]>) -> (reason: Option<
    &'static str,
>)
    ensures
        reason is None <==> is_usable(display) || is_usable(wayland),
        reason matches Some(said) ==> said@ == NO_DISPLAY@,
{
    let by_display = match display {
        Some(value) => value.len() > 0,
        None => false,
    };
    let by_wayland = match wayland {
        Some(value) => value.len() > 0,
        None => false,
    };
    if by_display || by_wayland {
        None
    } else {
        Some(NO_DISPLAY)
    }
}

/// The title of the window: the name of the file, or the whole path, as it is written, when it has
/// none.
pub open spec fn title_of(path: Seq<u8>) -> Seq<char> {
    let shown = match paths::name_of(path) {
        Some(name) => name,
        None => path,
    };
    "Run and Log - "@ + text::lossy_text(shown)
}

/// The title of the window.
pub fn window_title(path: &FsPath) -> (title: String)
    ensures
        title@ == title_of(path@),
{
    let name = match path.file_name() {
        Some(name) => text::decode_lossy(name.as_slice()),
        None => text::decode_lossy(path.to_bytes().as_slice()),
    };
    let mut title = "Run and Log - ".to_owned();
    title.append(name.as_str());
    title
}

/// A display is there exactly if one of the two variables has a value that is not empty.
pub proof fn law_display_needs_a_value(value: &[u8])
    ensures
        is_usable(Some(value)) <==> value@.len() > 0,
        !is_usable(None),
{
}

/// What went wrong with a run is told with the reason that was given, and each way of going wrong
/// is told apart; a run whose result was written is not complained about.
pub proof fn law_complaints_give_the_reason(error: &str, outcome: &ExecOutcome)
    ensures
        complaint(Run::Written(outcome)) is None,
        complaint(Run::Refused(error)) == Some("Writing the result failed: "@ + error@),
        complaint(Run::NotStarted(error)) == Some("The run failed: "@ + error@),
        complaint(Run::Died(error)) == Some("The worker thread died unexpectedly: "@ + error@),
{
}

/// The title of the window ends with the name of the file, or with its path when it has no name.
pub proof fn law_title_names_the_file(path: Seq<u8>)
    ensures
        paths::name_of(path) matches Some(name) ==> title_of(path) == "Run and Log - "@
            + text::lossy_text(name),
        paths::name_of(path) is None ==> title_of(path) == "Run and Log - "@ + text::lossy_text(
            path,
        ),
{
}

/// The cell that a run of all `count` cells goes on with after `done` of them, unless it is stopped.
pub open spec fn cell_after(done: nat, count: nat, stopped: bool) -> Option<usize> {
    if !stopped && done < count {
        Some(done as usize)
    } else {
        None
    }
}

/// A run of all cells runs every cell, in the order of the document and each of them once, until it
/// is stopped; after that, it runs none.
pub proof fn law_all_cells_are_run_in_order(done: nat, count: nat)
    requires
        count <= usize::MAX,
    ensures
        done < count ==> cell_after(done, count, false) == Some(done as usize),
        cell_after(count, count, false) is None,
        cell_after(done, count, true) is None,
{
}

/// The window shows a cell as it stands in the document: under its number, with its language, its
/// command and its destination, and with the result of its last run.
pub proof fn law_window_shows_the_cell(
    view: CellView,
    s: Seq<char>,
    cell: CellModel,
    i: int,
)
    requires
        view.shows(s, cell, i),
    ensures
        view.index == i,
        view.number == view.index + 1,
        view.lang@ == cell.lang,
        view.command@ == cell.command,
        view.out_file is Some <==> cell.out_file is Some,
        view.out_file matches Some(file) ==> cell.out_file == Some(file@),
        view.result is Some <==> cell.result_span is Some,
        view.result matches Some(result) ==> writeback::result_of(s, cell) == Some(result@),
{
}

} // verus!
