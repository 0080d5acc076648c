//! Decisions of the command line: what to do, which cells to run, and how to exit.

use vstd::prelude::*;
use vstd::utf8::*;

use crate::exec;
use crate::exec::{ExecOptions, ExecOutcome};
use crate::number;
use crate::parse;
use crate::parse::{Cell, CellModel, Document};
use crate::paths;
use crate::paths::FsPath;
use crate::text;
use crate::time::Elapsed;

verus! {

/// Exit code of a run that a signal has stopped, as shells count it: 128 and the number of the
/// signal, of which the lowest eight bits are reported.
pub open spec fn exit_code_of(signal: int) -> int {
    (128 + signal) % 256
}

/// Exit code of a run that a signal has stopped.
pub fn signal_exit_code(signal: i32) -> (code: u8)
    requires
        signal <= i32::MAX - 128,
    ensures
        code == exit_code_of(signal as int),
{
    let sum: i64 = 128 + signal as i64;
    let rest: i64 = sum % 256;
    if rest < 0 {
        (rest + 256) as u8
    } else {
        rest as u8
    }
}

/// What the command line asks for.
#[derive(Debug, Clone, Copy, PartialEq, Eq, Structural)]
pub enum Mode {
    /// Open the desktop app.
    Gui,
    /// List the cells.
    List,
    /// Open the terminal interface.
    Tui,
    /// Run cells without asking.
    Run,
}

/// What the command line asks for.
///
/// A request for the desktop app comes first: to do something else instead would be worse than to
/// refuse. Whether cells are run without asking is decided by the flags alone, not by how many
/// cells they select: to open the terminal interface instead would hang a script.
pub fn mode_of(gui: bool, list: bool, run_all: bool, run: &Vec<usize>) -> (mode: Mode)
    ensures
        mode == mode_for(gui, list, run_all, run@.len()),
        mode == (if gui {
            Mode::Gui
        } else if list {
            Mode::List
        } else if !run_all && run@.len() == 0 {
            Mode::Tui
        } else {
            Mode::Run
        }),
{
    if gui {
        Mode::Gui
    } else if list {
        Mode::List
    } else if !run_all && run.len() == 0 {
        Mode::Tui
    } else {
        Mode::Run
    }
}

/// Whether a number names one of `count` cells, which are numbered from one.
pub open spec fn names_cell(number: int, count: int) -> bool {
    1 <= number <= count
}

/// What is said of a number that names no cell.
pub open spec fn no_such_cell(number: nat, count: nat) -> Seq<char> {
    "no such cell: "@ + number::decimal(number) + " (the file has "@ + number::decimal(count)
        + " cells)"@
}

/// What is said of a number that names no cell.
pub fn no_such_cell_message(number: usize, count: usize) -> (message: String)
    ensures
        message@ == no_such_cell(number as nat, count as nat),
{
    let mut message = "no such cell: ".to_owned();
    message.append(number::write_decimal(number as u64).as_str());
    message.append(" (the file has ");
    message.append(number::write_decimal(count as u64).as_str());
    message.append(" cells)");
    message
}

/// Which cells to run, counted from zero. The error is the first number that names no cell.
pub fn targets(run_all: bool, run: &Vec<usize>, count: usize) -> (targets: Result<Vec<usize>, usize>)
    ensures
        run_all ==> targets is Ok && targets->Ok_0@ == Seq::new(count as nat, |i: int| i as usize),
        targets is Ok ==> forall|i: int|
            0 <= i < targets->Ok_0@.len() ==> #[trigger] targets->Ok_0@[i] < count,
        targets matches Err(number) ==> number == 0 || number > count,
        targets is Ok <==> run_all || forall|i: int|
            0 <= i < run@.len() ==> 1 <= #[trigger] run@[i] <= count,
        !run_all ==> match targets {
            Ok(indices) => {
                &&& indices@.len() == run@.len()
                &&& forall|i: int|
                    0 <= i < run@.len() ==> names_cell(run@[i] as int, count as int)
                        && #[trigger] indices@[i] == run@[i] - 1
            },
            Err(number) => exists|i: int|
                0 <= i < run@.len() && #[trigger] run@[i] == number && !names_cell(
                    number as int,
                    count as int,
                ) && forall|j: int| 0 <= j < i ==> names_cell(#[trigger] run@[j] as int, count as int),
        },
{
    let mut targets: Vec<usize> = Vec::new();
    if run_all {
        for i in 0..count
            invariant
                targets@ =~= Seq::new(i as nat, |j: int| j as usize),
        {
            targets.push(i);
        }
        return Ok(targets);
    }
    for i in 0..run.len()
        invariant
            !run_all,
            targets@.len() == i,
            forall|j: int|
                0 <= j < i ==> names_cell(#[trigger] run@[j] as int, count as int) && targets@[j]
                    == run@[j] - 1,
    {
        let number = run[i];
        if number == 0 || number > count {
            assert(run@[i as int] == number);
            return Err(number);
        }
        targets.push(number - 1);
    }
    assert forall|i: int| 0 <= i < targets@.len() implies #[trigger] targets@[i] < count by {
        assert(names_cell(run@[i] as int, count as int));
    }
    Ok(targets)
}

/// The lines of a command that are not blank.
pub open spec fn written_lines(command: Seq<char>) -> Seq<Seq<char>> {
    text::text_lines(command).filter(|line: Seq<char>| !parse::is_blank(line))
}

/// A command on one line: its first line that is not blank, and dots when more follow.
pub open spec fn headline(command: Seq<char>) -> Seq<char> {
    let lines = written_lines(command);
    if lines.len() == 0 {
        Seq::empty()
    } else if lines.len() == 1 {
        text::trim(lines[0])
    } else {
        text::trim(lines[0]) + " ..."@
    }
}

/// A command on one line.
pub fn first_line(command: &str) -> (line: String)
    ensures
        line@ == headline(command@),
{
    let lines = text::str_lines(command);
    let ghost texts = text::text_lines(command@);
    let ghost keep = |line: Seq<char>| !parse::is_blank(line);
    let mut first: Option<String> = None;
    let mut more: bool = false;
    assert(texts.take(0).filter(keep) =~= Seq::empty()) by {
        reveal(Seq::filter);
    }
    for i in 0..lines.len()
        invariant
            texts == text::str_texts(lines@),
            keep == (|line: Seq<char>| !parse::is_blank(line)),
            first is None <==> texts.take(i as int).filter(keep).len() == 0,
            first matches Some(f) ==> f@ == text::trim(texts.take(i as int).filter(keep)[0]),
            more == (texts.take(i as int).filter(keep).len() > 1),
    {
        let chars = text::to_chars(lines[i]);
        let part = text::trimmed(chars.as_slice());
        proof {
            let head = texts.take(i as int);
            let next = texts.take(i + 1);
            assert(next.drop_last() =~= head);
            assert(next.last() == lines@[i as int]@);
            reveal(Seq::filter);
            assert(next.filter(keep) == (if keep(next.last()) {
                head.filter(keep).push(next.last())
            } else {
                head.filter(keep)
            }));
        }
        if part.len() > 0 {
            if first.is_none() {
                first = Some(text::to_text(part));
            } else {
                more = true;
            }
        }
    }
    assert(texts.take(texts.len() as int) =~= texts);
    match first {
        None => String::new(),
        Some(line) => {
            if more {
                let mut whole = line;
                whole.append(" ...");
                whole
            } else {
                line
            }
        },
    }
}

/// The line for a cell in the list of cells.
pub open spec fn list_line(number: nat, cell: CellModel) -> Seq<char> {
    let out = match cell.out_file {
        Some(path) => " -> "@ + path,
        None => Seq::empty(),
    };
    "["@ + number::decimal(number) + "] "@ + headline(cell.command) + out
}

/// What is said of a file without cells.
pub open spec fn no_cells(path: Seq<char>) -> Seq<char> {
    "no runnable cells in "@ + path
}

/// The texts of a list of lines.
pub open spec fn line_models(lines: Seq<String>) -> Seq<Seq<char>> {
    lines.map_values(|l: String| l@)
}

/// The list of the cells of a document, or that there are none in the file `path`.
pub fn list_lines(doc: &Document, path: &str) -> (lines: Vec<String>)
    requires
        doc.wf(),
    ensures
        ({
            let cells = parse::cells_of(doc.text@);
            line_models(lines@) == (if cells.len() == 0 {
                seq![no_cells(path@)]
            } else {
                Seq::new(cells.len(), |i: int| list_line((i + 1) as nat, cells[i]))
            })
        }),
{
    let ghost cells = parse::cells_of(doc.text@);
    let mut lines: Vec<String> = Vec::new();
    if doc.cells.len() == 0 {
        let mut line = "no runnable cells in ".to_owned();
        line.append(path);
        lines.push(line);
        assert(line_models(lines@) =~= seq![no_cells(path@)]);
        return lines;
    }
    assert(line_models(lines@) =~= Seq::empty());
    for i in 0..doc.cells.len()
        invariant
            doc.wf(),
            cells == parse::cells_of(doc.text@),
            line_models(lines@) =~= Seq::new(i as nat, |j: int| list_line((j + 1) as nat, cells[j])),
    {
        assert(doc.cells@[i as int].describes(doc.text@, cells[i as int]));
        let line = cell_line(&doc.cells[i], Ghost(doc.text@), Ghost(cells[i as int]));
        let ghost before = lines@;
        lines.push(line);
        assert(line_models(lines@) =~= line_models(before).push(line@));
    }
    lines
}

fn cell_line(cell: &Cell, Ghost(s): Ghost<Seq<char>>, Ghost(model): Ghost<CellModel>) -> (line: String)
    requires
        cell.describes(s, model),
        cell.index < usize::MAX,
    ensures
        line@ == list_line((cell.index + 1) as nat, model),
{
    let mut line = "[".to_owned();
    line.append(number::write_decimal(cell.display_number() as u64).as_str());
    line.append("] ");
    line.append(first_line(cell.command.as_str()).as_str());
    match &cell.out_file {
        Some(path) => {
            line.append(" -> ");
            line.append(path.as_str());
        },
        None => {},
    }
    assert(line@ =~= list_line((cell.index + 1) as nat, model));
    line
}

/// The line that is printed before a cell is run.
pub open spec fn announcement(number: nat, command: Seq<char>) -> Seq<char> {
    "["@ + number::decimal(number) + "] "@ + headline(command)
}

/// The line that is printed before a cell is run.
pub fn announce(index: usize, command: &str) -> (line: String)
    requires
        index < usize::MAX,
    ensures
        line@ == announcement((index + 1) as nat, command@),
{
    let mut line = "[".to_owned();
    line.append(number::write_decimal((index + 1) as u64).as_str());
    line.append("] ");
    line.append(first_line(command).as_str());
    line
}

/// The working directory of commands: the one asked for, or the directory of the file, which is
/// the current one for a bare file name.
pub open spec fn working_directory(asked: Option<Seq<u8>>, file: Seq<u8>) -> Seq<u8> {
    match asked {
        Some(cwd) => cwd,
        None => match paths::parent_of(file) {
            Some(parent) => if parent.len() > 0 {
                parent
            } else {
                seq![paths::dot()]
            },
            None => seq![paths::dot()],
        },
    }
}

/// The working directory of commands.
pub fn cwd_for(asked: Option<FsPath>, file: &FsPath) -> (cwd: FsPath)
    ensures
        cwd@ == working_directory(
            match asked {
                Some(a) => Some(a@),
                None => None,
            },
            file@,
        ),
{
    match asked {
        Some(cwd) => cwd,
        None => {
            let parent = file.parent();
            match parent {
                Some(p) => {
                    if p.bytes.len() > 0 {
                        return p;
                    }
                },
                None => {},
            }
            FsPath::current()
        },
    }
}

/// The execution settings that the command line asks for: the working directory, the shell in
/// preference to the one that the environment names, and the time limit in seconds.
pub fn exec_options(
    cwd: FsPath,
    environment_shell: Option<FsPath>,
    shell: Option<FsPath>,
    timeout: Option<u64>,
) -> (options: ExecOptions)
    ensures
        options.cwd@ == cwd@,
        options.shell@ == (match (shell, environment_shell) {
            (Some(asked), _) => asked@,
            (None, Some(named)) => named@,
            (None, None) => encode_utf8("/bin/sh"@),
        }),
        options.timeout is Some <==> timeout is Some,
        timeout matches Some(secs) ==> options.timeout->0@ == secs * 1_000_000_000,
        options.max_output_bytes == exec::DEFAULT_MAX_OUTPUT_BYTES,
{
    let mut options = ExecOptions::new(cwd, environment_shell);
    match shell {
        Some(asked) => {
            options.shell = asked;
        },
        None => {},
    }
    match timeout {
        Some(secs) => {
            options.timeout = Some(Elapsed::from_secs(secs));
        },
        None => {},
    }
    options
}

/// The line that is printed after a cell has been run.
pub fn closing_line(outcome: &ExecOutcome) -> (line: String)
    ensures
        line@ == "--- "@ + outcome.status(),
{
    let mut line = "--- ".to_owned();
    line.append(outcome.status_text().as_str());
    line
}

/// A run of cells, one after the other.
#[derive(Debug)]
pub struct Batch {
    /// How many of the targets have been run.
    pub done: usize,
    /// Whether one of them has failed.
    pub failed: bool,
}

/// How a batch goes on.
#[derive(Debug, Clone, Copy, PartialEq, Eq, Structural)]
pub enum Next {
    /// Run the target at this place.
    Run(usize),
    /// Exit with this code.
    Exit(u8),
    /// Say that the run was interrupted, and exit with this code.
    Interrupted(u8),
}

/// How a batch of `count` targets goes on. A signal is looked for before a cell is started and
/// once more at the end: it stops the batch, and the exit code says so.
pub open spec fn batch_next(batch: Batch, count: int, signal: int) -> Next {
    if signal != 0 {
        Next::Interrupted(exit_code_of(signal) as u8)
    } else if batch.done < count {
        Next::Run(batch.done)
    } else if batch.failed {
        Next::Exit(1)
    } else {
        Next::Exit(0)
    }
}

impl Batch {
    /// Nothing has been run.
    pub fn new() -> (batch: Batch)
        ensures
            batch.done == 0,
            !batch.failed,
    {
        Batch { done: 0, failed: false }
    }

    /// How the batch goes on, given the signal that arrived (zero for none).
    pub fn next(&self, count: usize, signal: i32) -> (next: Next)
        requires
            signal <= i32::MAX - 128,
        ensures
            next == batch_next(*self, count as int, signal as int),
    {
        if signal != 0 {
            Next::Interrupted(signal_exit_code(signal))
        } else if self.done < count {
            Next::Run(self.done)
        } else if self.failed {
            Next::Exit(1)
        } else {
            Next::Exit(0)
        }
    }

    /// Takes note of a target that has been run.
    pub fn ran(&mut self, success: bool)
        requires
            old(self).done < usize::MAX,
        ensures
            final(self).done == old(self).done + 1,
            final(self).failed == (old(self).failed || !success),
            *final(self) == batch_ran(*old(self), success),
    {
        self.done += 1;
        if !success {
            self.failed = true;
        }
    }
}

/// A batch after one more target.
pub open spec fn batch_ran(batch: Batch, success: bool) -> Batch {
    Batch { done: (batch.done + 1) as usize, failed: batch.failed || !success }
}

/// A batch after targets that have succeeded or failed, in order.
pub open spec fn batch_after(successes: Seq<bool>) -> Batch
    decreases successes.len(),
{
    if successes.len() == 0 {
        Batch { done: 0, failed: false }
    } else {
        batch_ran(batch_after(successes.drop_last()), successes.last())
    }
}

/// Every target is run, one after the other, whether or not those before it have failed. At the
/// end the exit code says whether one of them has, and a signal comes before anything else.
pub proof fn law_batch_runs_every_target(successes: Seq<bool>, count: usize, signal: int)
    requires
        successes.len() <= count,
    ensures
        batch_next(batch_after(successes), count as int, signal) == (if signal != 0 {
            Next::Interrupted(exit_code_of(signal) as u8)
        } else if successes.len() < count {
            Next::Run(successes.len() as usize)
        } else if successes.contains(false) {
            Next::Exit(1)
        } else {
            Next::Exit(0)
        }),
{
    lemma_batch_after(successes);
}

proof fn lemma_batch_after(successes: Seq<bool>)
    requires
        successes.len() <= usize::MAX,
    ensures
        batch_after(successes).done == successes.len(),
        batch_after(successes).failed == successes.contains(false),
    decreases successes.len(),
{
    if successes.len() > 0 {
        let before = successes.drop_last();
        lemma_batch_after(before);
        let n = before.len() as int;
        assert(successes[n] == successes.last());
        if before.contains(false) {
            let i = choose|i: int| 0 <= i < before.len() && before[i] == false;
            assert(successes[i] == before[i]);
        }
        if successes.contains(false) && successes.last() {
            let i = choose|i: int| 0 <= i < successes.len() && successes[i] == false;
            assert(before[i] == successes[i]);
        }
    }
}

/// Exit code when something went wrong: a run that was interrupted still exits by its signal.
pub fn failure_code(signal: i32) -> (code: u8)
    requires
        signal <= i32::MAX - 128,
    ensures
        code == (if signal != 0 {
            exit_code_of(signal as int)
        } else {
            1
        }),
{
    if signal != 0 {
        signal_exit_code(signal)
    } else {
        1
    }
}

/// A signal gives its own exit code: 128 and its number, for every number that a signal has.
pub proof fn law_signals_have_their_own_codes(a: int, b: int)
    requires
        0 < a < 128,
        0 < b < 128,
        exit_code_of(a) == exit_code_of(b),
    ensures
        a == b,
        exit_code_of(a) == 128 + a,
{
}

/// The headline of a command is its first line that is not blank, without the white space around
/// it; dots follow exactly if another line that is not blank follows.
pub proof fn law_headline_is_the_first_line(command: Seq<char>, i: int)
    requires
        0 <= i < text::text_lines(command).len(),
        text::trim(text::text_lines(command)[i]).len() > 0,
        forall|j: int| 0 <= j < i ==> text::trim(#[trigger] text::text_lines(command)[j]).len() == 0,
    ensures
        (forall|j: int|
            i < j < text::text_lines(command).len() ==> text::trim(
                #[trigger] text::text_lines(command)[j],
            ).len() == 0) ==> headline(command) == text::trim(text::text_lines(command)[i]),
        (exists|j: int|
            i < j < text::text_lines(command).len() && text::trim(
                #[trigger] text::text_lines(command)[j],
            ).len() > 0) ==> headline(command) == text::trim(text::text_lines(command)[i]) + " ..."@,
{
    let lines = text::text_lines(command);
    let keep = |line: Seq<char>| !parse::is_blank(line);
    let n = lines.len() as int;
    lemma_written_lines(lines, i, n);
    assert(lines.take(n) =~= lines);
    assert(written_lines(command) == lines.filter(keep));
}

/// The lines that are not blank among the first `n`, of which line `i` is the first.
proof fn lemma_written_lines(lines: Seq<Seq<char>>, i: int, n: int)
    requires
        0 <= i < lines.len(),
        0 <= n <= lines.len(),
        text::trim(lines[i]).len() > 0,
        forall|j: int| 0 <= j < i ==> text::trim(#[trigger] lines[j]).len() == 0,
    ensures
        ({
            let kept = lines.take(n).filter(|line: Seq<char>| !parse::is_blank(line));
            &&& n <= i ==> kept.len() == 0
            &&& n > i ==> kept.len() > 0 && kept[0] == lines[i]
            &&& n > i ==> (kept.len() == 1 <==> forall|j: int|
                i < j < n ==> text::trim(#[trigger] lines[j]).len() == 0)
        }),
    decreases n,
{
    let keep = |line: Seq<char>| !parse::is_blank(line);
    let kept = lines.take(n).filter(keep);
    reveal(Seq::filter);
    if n == 0 {
        assert(kept =~= Seq::empty());
    } else {
        lemma_written_lines(lines, i, n - 1);
        let before = lines.take(n - 1).filter(keep);
        assert(lines.take(n).drop_last() =~= lines.take(n - 1));
        assert(lines.take(n).last() == lines[n - 1]);
        assert(kept == (if keep(lines[n - 1]) {
            before.push(lines[n - 1])
        } else {
            before
        }));
        if n > i + 1 && kept.len() == 1 {
            assert forall|j: int| i < j < n implies text::trim(#[trigger] lines[j]).len() == 0 by {
                if j == n - 1 {
                    assert(!keep(lines[n - 1]));
                }
            }
        }
    }
}

/// A cell is listed under its number, with its headline, and with its destination if it designates
/// one; before it is run, it is announced in the same way.
pub proof fn law_cells_are_listed_by_number(number: nat, cell: CellModel)
    ensures
        cell.out_file is None ==> list_line(number, cell) == announcement(number, cell.command),
        cell.out_file matches Some(path) ==> list_line(number, cell) == announcement(
            number,
            cell.command,
        ) + " -> "@ + path,
        announcement(number, cell.command) == "["@ + number::decimal(number) + "] "@ + headline(
            cell.command,
        ),
{
    let line = announcement(number, cell.command);
    match cell.out_file {
        Some(path) => {
            assert(list_line(number, cell) =~= line + " -> "@ + path);
        },
        None => {
            assert(list_line(number, cell) =~= line);
        },
    }
}

/// Commands run where it was asked for, and otherwise beside the file.
pub proof fn law_commands_run_beside_the_file(asked: Seq<u8>, file: Seq<u8>)
    ensures
        working_directory(Some(asked), file) == asked,
        paths::name_of(file) is Some && paths::parts_of(file).len() > 1 ==> paths::parts_of(
            working_directory(None, file),
        ) == paths::parts_of(file).drop_last(),
{
    paths::lemma_parent_parts(file);
    if paths::name_of(file) is Some && paths::parts_of(file).len() > 1 {
        let parent = paths::parent_of(file)->0;
        if parent.len() == 0 {
            assert(paths::parts_of(parent).len() == 0);
        }
    }
}

/// Cells are numbered from one: a number names a cell exactly if that many cells or more are there,
/// and what is said of one that does not gives that number and how many cells there are.
pub proof fn law_cells_are_numbered_from_one(number: nat, count: nat)
    ensures
        names_cell(number as int, count as int) <==> 0 < number <= count,
        no_such_cell(number, count) == "no such cell: "@ + number::decimal(number)
            + " (the file has "@ + number::decimal(count) + " cells)"@,
{
}

/// What the command line asks for, with so many cells named.
pub open spec fn mode_for(gui: bool, list: bool, run_all: bool, named: nat) -> Mode {
    if gui {
        Mode::Gui
    } else if list {
        Mode::List
    } else if run_all || named > 0 {
        Mode::Run
    } else {
        Mode::Tui
    }
}

/// The desktop app comes before everything else, and the list before any run. Cells are run without
/// asking exactly if all or some of them are asked for; otherwise the terminal interface opens.
pub proof fn law_flags_decide_the_mode(list: bool, run_all: bool, named: nat)
    ensures
        mode_for(true, list, run_all, named) == Mode::Gui,
        mode_for(false, true, run_all, named) == Mode::List,
        mode_for(false, false, true, named) == Mode::Run,
        named > 0 ==> mode_for(false, false, run_all, named) == Mode::Run,
        mode_for(false, false, false, 0) == Mode::Tui,
{
}

/// A command that holds nothing but blank lines has an empty headline.
pub proof fn law_blank_commands_have_no_headline(command: Seq<char>)
    requires
        forall|j: int|
            0 <= j < text::text_lines(command).len() ==> text::trim(
                #[trigger] text::text_lines(command)[j],
            ).len() == 0,
    ensures
        headline(command).len() == 0,
{
    let lines = text::text_lines(command);
    lemma_nothing_written(lines, lines.len() as int);
    assert(lines.take(lines.len() as int) =~= lines);
}

proof fn lemma_nothing_written(lines: Seq<Seq<char>>, n: int)
    requires
        0 <= n <= lines.len(),
        forall|j: int| 0 <= j < lines.len() ==> text::trim(#[trigger] lines[j]).len() == 0,
    ensures
        lines.take(n).filter(|line: Seq<char>| !parse::is_blank(line)).len() == 0,
    decreases n,
{
    reveal(Seq::filter);
    if n > 0 {
        lemma_nothing_written(lines, n - 1);
        assert(lines.take(n).drop_last() =~= lines.take(n - 1));
        assert(lines.take(n).last() == lines[n - 1]);
    }
}

} // verus!
