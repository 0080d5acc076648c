//! The terminal interface: what the keys mean, what is shown, and how a run changes it.
//!
//! Reading keys and drawing is left to the caller.

use std::collections::HashMap;
use vstd::prelude::*;

use crate::exec::ExecOutcome;
use crate::live;
use crate::live::LiveOutput;
use crate::number;
use crate::parse::CellModel;
use crate::session::Session;
use crate::text;
use crate::writeback;

verus! {

broadcast use vstd::std_specs::hash::group_hash_axioms;

/// How many lines a page key scrolls.
pub const PAGE_LINES: usize = 10;

/// How many of the last lines of a running command are shown under its cell.
pub const LIVE_TAIL_LINES: usize = 3;

/// How many bytes of the output of a running command are kept for the live view.
pub const LIVE_LIMIT: usize = 0x4000;

/// A key.
#[derive(Debug, Clone, Copy, PartialEq, Eq, Structural)]
pub enum KeyCode {
    Char(char),
    Enter,
    Esc,
    Up,
    Down,
    Home,
    End,
    PageUp,
    PageDown,
    Other,
}

/// A key that was pressed, and whether the control key was held.
#[derive(Debug, Clone, Copy, PartialEq, Eq, Structural)]
pub struct KeyPress {
    pub code: KeyCode,
    pub control: bool,
}

/// Whether a key stops the running command.
pub open spec fn cancels(key: KeyPress) -> bool {
    key.code == KeyCode::Char('c') && key.control
}

/// Whether a key quits.
pub open spec fn quits(key: KeyPress) -> bool {
    key.code == KeyCode::Char('q') || key.code == KeyCode::Esc || cancels(key)
}

/// Whether a key quits.
pub fn is_quit_key(key: KeyPress) -> (quit: bool)
    ensures
        quit == quits(key),
{
    match key.code {
        KeyCode::Char('q') => true,
        KeyCode::Esc => true,
        KeyCode::Char('c') => key.control,
        _ => false,
    }
}

/// Whether a key stops the running command. The other quit keys wait for it to end.
pub fn is_cancel_key(key: KeyPress) -> (cancel: bool)
    ensures
        cancel == cancels(key),
{
    match key.code {
        KeyCode::Char('c') => key.control,
        _ => false,
    }
}

/// What the marker of a cell says. Both labels have the same width, so that markers line up.
pub open spec fn label(ran: bool) -> Seq<char> {
    if ran {
        "Re-run"@
    } else {
        "Run   "@
    }
}

/// What the marker of a cell says.
pub fn run_label(ran: bool) -> (text: &'static str)
    ensures
        text@ == label(ran),
        text@.len() == 6,
{
    proof {
        reveal_strlit("Re-run");
        reveal_strlit("Run   ");
    }
    if ran {
        "Re-run"
    } else {
        "Run   "
    }
}

/// Where a cell stands since the file was opened or reloaded.
#[derive(Debug, Clone, Copy, PartialEq, Eq, Structural)]
pub enum CellState {
    /// Not run.
    Waiting,
    /// Running right now.
    Running,
    /// Run with success.
    Done,
    /// Run without success.
    Failed,
}

/// Where a cell stands, from the cell being run and whether this one has succeeded.
pub open spec fn state_of(index: int, running: Option<usize>, finished: Option<bool>) -> CellState {
    if running is Some && running->0 == index {
        CellState::Running
    } else {
        match finished {
            Some(true) => CellState::Done,
            Some(false) => CellState::Failed,
            None => CellState::Waiting,
        }
    }
}

/// Where a cell stands.
pub fn cell_state(index: usize, running: Option<usize>, finished: Option<bool>) -> (state: CellState)
    ensures
        state == state_of(index as int, running, finished),
{
    match running {
        Some(current) => {
            if current == index {
                return CellState::Running;
            }
        },
        None => {},
    }
    match finished {
        Some(true) => CellState::Done,
        Some(false) => CellState::Failed,
        None => CellState::Waiting,
    }
}

/// A colour.
#[derive(Debug, Clone, Copy, PartialEq, Eq, Structural)]
pub enum Color {
    Black,
    Red,
    Green,
    Yellow,
    Blue,
    Gray,
    DarkGray,
}

/// Colour of the marker of a cell.
pub open spec fn color_of(state: CellState) -> Color {
    match state {
        CellState::Waiting => Color::Green,
        CellState::Running => Color::Yellow,
        CellState::Done => Color::Blue,
        CellState::Failed => Color::Red,
    }
}

/// Colour of the marker of a cell.
pub fn marker_color(state: CellState) -> (color: Color)
    ensures
        color == color_of(state),
{
    match state {
        CellState::Waiting => Color::Green,
        CellState::Running => Color::Yellow,
        CellState::Done => Color::Blue,
        CellState::Failed => Color::Red,
    }
}

/// Every state has a colour of its own.
pub proof fn law_colors_differ(a: CellState, b: CellState)
    requires
        color_of(a) == color_of(b),
    ensures
        a == b,
{
}

/// How text is drawn.
#[derive(Debug, Clone, Copy, PartialEq, Eq, Structural)]
pub struct TextStyle {
    pub fg: Option<Color>,
    pub bg: Option<Color>,
    pub bold: bool,
}

/// Text as the terminal draws it by default.
pub open spec fn plain() -> TextStyle {
    TextStyle { fg: None, bg: None, bold: false }
}

/// Text in a colour.
pub open spec fn colored(color: Color) -> TextStyle {
    TextStyle { fg: Some(color), bg: None, bold: false }
}

/// The marker of the selected cell.
pub open spec fn highlighted(color: Color) -> TextStyle {
    TextStyle { fg: Some(Color::Black), bg: Some(color), bold: true }
}

impl Default for TextStyle {
    /// Text as the terminal draws it by default.
    fn default() -> (style: TextStyle)
        ensures
            style == plain(),
    {
        TextStyle { fg: None, bg: None, bold: false }
    }
}

fn in_color(color: Color) -> (style: TextStyle)
    ensures
        style == colored(color),
{
    TextStyle { fg: Some(color), bg: None, bold: false }
}

/// How the command of a cell is drawn: dimmed once it has been run, so that the cells still to
/// come stand out.
pub open spec fn style_of(state: CellState) -> TextStyle {
    match state {
        CellState::Done => colored(Color::DarkGray),
        CellState::Failed => colored(Color::DarkGray),
        _ => plain(),
    }
}

/// How the command of a cell is drawn.
pub fn command_style(state: CellState) -> (style: TextStyle)
    ensures
        style == style_of(state),
{
    match state {
        CellState::Done => in_color(Color::DarkGray),
        CellState::Failed => in_color(Color::DarkGray),
        _ => TextStyle { fg: None, bg: None, bold: false },
    }
}

/// Text with a style.
#[derive(Debug, PartialEq, Eq)]
pub struct StyledText {
    pub text: String,
    pub style: TextStyle,
}

/// A line of styled text.
#[derive(Debug, PartialEq, Eq)]
pub struct StyledLine {
    pub parts: Vec<StyledText>,
}

/// Text with a style.
pub struct StyledModel {
    pub text: Seq<char>,
    pub style: TextStyle,
}

impl View for StyledText {
    type V = StyledModel;

    open spec fn view(&self) -> StyledModel {
        StyledModel { text: self.text@, style: self.style }
    }
}

impl View for StyledLine {
    type V = Seq<StyledModel>;

    open spec fn view(&self) -> Seq<StyledModel> {
        self.parts@.map_values(|p: StyledText| p@)
    }
}

/// The lines of a list.
pub open spec fn styled_lines(lines: Seq<StyledLine>) -> Seq<Seq<StyledModel>> {
    lines.map_values(|l: StyledLine| l@)
}

/// An empty line.
pub open spec fn blank_line() -> Seq<StyledModel> {
    Seq::empty()
}

/// A line of text in one style.
pub open spec fn one(text: Seq<char>, style: TextStyle) -> Seq<StyledModel> {
    seq![StyledModel { text, style }]
}

/// The line with the marker of a cell, and the destination of its result.
pub open spec fn marker_line(
    number: nat,
    ran: bool,
    out_file: Option<Seq<char>>,
    style: TextStyle,
) -> Seq<StyledModel> {
    seq![
        StyledModel {
            text: " ["@ + number::decimal(number) + "] > "@ + label(ran) + " "@,
            style,
        },
        StyledModel {
            text: match out_file {
                Some(path) => "  -> "@ + path,
                None => Seq::empty(),
            },
            style: colored(Color::DarkGray),
        },
    ]
}

/// A line of the command of a cell.
pub open spec fn command_line(line: Seq<char>, state: CellState) -> Seq<StyledModel> {
    seq![
        StyledModel { text: "   > "@, style: colored(Color::DarkGray) },
        StyledModel { text: line, style: style_of(state) },
    ]
}

/// A line of the result of a cell.
pub open spec fn result_line(line: Seq<char>) -> Seq<StyledModel> {
    one("   "@ + line, colored(Color::Gray))
}

/// What the live view shows at place `i`, given the last lines of the output.
pub open spec fn live_text(tail: Seq<Seq<char>>, i: int) -> Seq<char> {
    if i < tail.len() {
        "   "@ + tail[i]
    } else if i == 0 {
        "   (no output yet)"@
    } else {
        Seq::empty()
    }
}

/// The live view of a running command. It always has the same height, so that the cells below it
/// do not move while the command prints.
pub open spec fn live_view(printed: Seq<char>) -> Seq<Seq<StyledModel>> {
    let tail = live::last_lines(
        text::text_lines(text::strip_end(printed, '\n')),
        LIVE_TAIL_LINES as nat,
    );
    seq![blank_line()] + Seq::new(
        LIVE_TAIL_LINES as nat,
        |i: int| one(live_text(tail, i), colored(Color::DarkGray)),
    )
}

/// What is shown below the command of a cell: the live view while it runs, else its result.
pub open spec fn output_view(state: CellState, printed: Seq<char>, result: Option<Seq<char>>) -> Seq<
    Seq<StyledModel>,
> {
    if state == CellState::Running {
        live_view(printed)
    } else {
        match result {
            Some(r) => seq![blank_line()] + text::text_lines(r).map_values(
                |line: Seq<char>| result_line(line),
            ),
            None => Seq::empty(),
        }
    }
}

/// The lines that show a cell.
pub open spec fn cell_view(
    number: nat,
    cell: CellModel,
    result: Option<Seq<char>>,
    selected: bool,
    state: CellState,
    printed: Seq<char>,
) -> Seq<Seq<StyledModel>> {
    let color = color_of(state);
    let style = if selected {
        highlighted(color)
    } else {
        colored(color)
    };
    seq![marker_line(number, result is Some, cell.out_file, style)] + text::text_lines(
        cell.command,
    ).map_values(|line: Seq<char>| command_line(line, state)) + output_view(state, printed, result)
        + seq![blank_line()]
}

/// The lines to draw, and where each cell stands in them.
#[derive(Debug)]
pub struct Rendered {
    pub lines: Vec<StyledLine>,
    /// The first line of each cell, and the line after its last.
    pub spans: Vec<(usize, usize)>,
}

/// The state of the terminal interface.
pub struct App {
    pub session: Session,
    /// The selected cell.
    pub selected: usize,
    /// The first line that is shown.
    pub scroll: usize,
    /// How many lines are shown.
    pub viewport: usize,
    /// What the status line says while nothing runs.
    pub status: String,
    /// The cell being run, and the phase of the spinner.
    pub running: Option<(usize, usize)>,
    /// What the command being run has printed.
    pub live: LiveOutput,
    /// Cells run since the file was opened or reloaded, and whether they succeeded.
    pub finished: HashMap<usize, bool>,
    pub quit: bool,
}

impl App {
    /// The cell being run.
    pub open spec fn current(&self) -> Option<usize> {
        match self.running {
            Some((index, _)) => Some(index),
            None => None,
        }
    }

    /// Where a cell stands.
    pub open spec fn state(&self, i: int) -> CellState {
        state_of(
            i,
            self.current(),
            if self.finished@.dom().contains(i as usize) {
                Some(self.finished@[i as usize])
            } else {
                None
            },
        )
    }

    /// The lines that show the `i`-th cell.
    pub open spec fn shown(&self, i: int) -> Seq<Seq<StyledModel>> {
        let cell = self.session.cells()[i];
        cell_view(
            (i + 1) as nat,
            cell,
            writeback::result_of(self.session.document().text@, cell),
            i == self.selected,
            self.state(i),
            self.live.text@,
        )
    }

    /// The lines that show the first `n` cells.
    pub open spec fn shown_up_to(&self, n: int) -> Seq<Seq<StyledModel>>
        decreases n,
    {
        if n <= 0 {
            Seq::empty()
        } else {
            self.shown_up_to(n - 1) + self.shown(n - 1)
        }
    }
}

fn styled(text: String, style: TextStyle) -> (part: StyledText)
    ensures
        part@ == (StyledModel { text: text@, style }),
{
    StyledText { text, style }
}

fn line_of_one(part: StyledText) -> (line: StyledLine)
    ensures
        line@ == seq![part@],
{
    let mut parts: Vec<StyledText> = Vec::new();
    parts.push(part);
    let line = StyledLine { parts };
    assert(line@ =~= seq![part@]);
    line
}

fn line_of_two(first: StyledText, second: StyledText) -> (line: StyledLine)
    ensures
        line@ == seq![first@, second@],
{
    let mut parts: Vec<StyledText> = Vec::new();
    parts.push(first);
    parts.push(second);
    let line = StyledLine { parts };
    assert(line@ =~= seq![first@, second@]);
    line
}

fn empty_line() -> (line: StyledLine)
    ensures
        line@ == blank_line(),
{
    let line = StyledLine { parts: Vec::new() };
    assert(line@ =~= blank_line());
    line
}

fn push_line(lines: &mut Vec<StyledLine>, line: StyledLine)
    ensures
        styled_lines(final(lines)@) == styled_lines(old(lines)@).push(line@),
        final(lines)@.len() == old(lines)@.len() + 1,
{
    let ghost before = lines@;
    lines.push(line);
    assert(styled_lines(lines@) =~= styled_lines(before).push(line@));
}

fn indented(line: &str) -> (text: String)
    ensures
        text@ == "   "@ + line@,
{
    let mut text = "   ".to_owned();
    text.append(line);
    text
}

/// The line with the marker of a cell.
fn write_marker_line(number: usize, ran: bool, out_file: &Option<String>, style: TextStyle) -> (line:
    StyledLine)
    ensures
        line@ == marker_line(number as nat, ran, text::opt_text(*out_file), style),
{
    let mut marker = " [".to_owned();
    marker.append(number::write_decimal(number as u64).as_str());
    marker.append("] > ");
    marker.append(run_label(ran));
    marker.append(" ");
    let mut destination = String::new();
    match out_file {
        Some(path) => {
            destination.append("  -> ");
            destination.append(path.as_str());
        },
        None => {},
    }
    assert(out_file is Some ==> destination@ =~= "  -> "@ + out_file->0@);
    assert(out_file is None ==> destination@ =~= Seq::empty());
    let line = line_of_two(styled(marker, style), styled(destination, in_color(Color::DarkGray)));
    assert(line@ =~= marker_line(number as nat, ran, text::opt_text(*out_file), style));
    line
}

impl App {
    /// The interface for a file that has just been opened.
    pub fn new(session: Session) -> (app: App)
        ensures
            app.session == session,
            app.selected == 0,
            app.scroll == 0,
            app.viewport == 1,
            app.status@ == (if session.cells().len() == 0 {
                "No runnable cells. Press q to quit."@
            } else {
                "Enter/r: run  a: run all  j/k: move  R: reload  q: quit"@
            }),
            app.running is None,
            app.live.text@ == Seq::<char>::empty(),
            app.live.limit == LIVE_LIMIT,
            app.live.limit == 16 * 1024,
            app.finished@ == Map::<usize, bool>::empty(),
            !app.quit,
    {
        let status = if session.is_empty() {
            "No runnable cells. Press q to quit.".to_owned()
        } else {
            "Enter/r: run  a: run all  j/k: move  R: reload  q: quit".to_owned()
        };
        App {
            session,
            selected: 0,
            scroll: 0,
            viewport: 1,
            status,
            running: None,
            live: LiveOutput::new(LIVE_LIMIT),
            finished: HashMap::new(),
            quit: false,
        }
    }

    /// The live view of the running command.
    pub fn live_lines(&self) -> (lines: Vec<StyledLine>)
        ensures
            styled_lines(lines@) == live_view(self.live.text@),
    {
        let mut lines: Vec<StyledLine> = Vec::new();
        assert(styled_lines(lines@) =~= Seq::empty());
        push_line(&mut lines, empty_line());
        let tail = self.live.tail_lines(LIVE_TAIL_LINES);
        let ghost texts = text::str_texts(tail@);
        let ghost first = seq![blank_line()];
        assert(styled_lines(lines@) =~= first);
        for i in 0..LIVE_TAIL_LINES
            invariant
                texts == text::str_texts(tail@),
                styled_lines(lines@) =~= first + Seq::new(
                    i as nat,
                    |j: int| one(live_text(texts, j), colored(Color::DarkGray)),
                ),
        {
            let line = if i < tail.len() {
                assert(texts[i as int] == tail@[i as int]@);
                indented(tail[i])
            } else if i == 0 {
                "   (no output yet)".to_owned()
            } else {
                String::new()
            };
            assert(line@ =~= live_text(texts, i as int));
            push_line(&mut lines, line_of_one(styled(line, in_color(Color::DarkGray))));
        }
        lines
    }

    /// Adds the lines of the command of a cell.
    fn push_command(&self, lines: &mut Vec<StyledLine>, command: &str, state: CellState)
        ensures
            styled_lines(final(lines)@) == styled_lines(old(lines)@) + text::text_lines(
                command@,
            ).map_values(|line: Seq<char>| command_line(line, state)),
    {
        let parts = text::str_lines(command);
        let ghost texts = text::text_lines(command@);
        let ghost show = |line: Seq<char>| command_line(line, state);
        let ghost before = styled_lines(lines@);
        for i in 0..parts.len()
            invariant
                texts == text::str_texts(parts@),
                show == (|line: Seq<char>| command_line(line, state)),
                styled_lines(lines@) =~= before + texts.take(i as int).map_values(show),
        {
            let head = styled("   > ".to_owned(), in_color(Color::DarkGray));
            let line = styled(parts[i].to_owned(), command_style(state));
            assert(texts[i as int] == parts@[i as int]@);
            push_line(lines, line_of_two(head, line));
            assert(texts.take(i + 1).map_values(show) =~= texts.take(i as int).map_values(
                show,
            ).push(show(texts[i as int])));
        }
        assert(texts.take(texts.len() as int) =~= texts);
    }

    /// Adds the lines of the result of a cell.
    fn push_result(&self, lines: &mut Vec<StyledLine>, result: &str)
        ensures
            styled_lines(final(lines)@) == styled_lines(old(lines)@) + (seq![blank_line()]
                + text::text_lines(result@).map_values(|line: Seq<char>| result_line(line))),
    {
        push_line(lines, empty_line());
        let parts = text::str_lines(result);
        let ghost texts = text::text_lines(result@);
        let ghost show = |line: Seq<char>| result_line(line);
        let ghost before = styled_lines(lines@);
        for i in 0..parts.len()
            invariant
                texts == text::str_texts(parts@),
                show == (|line: Seq<char>| result_line(line)),
                styled_lines(lines@) =~= before + texts.take(i as int).map_values(show),
        {
            assert(texts[i as int] == parts@[i as int]@);
            push_line(lines, line_of_one(styled(indented(parts[i]), in_color(Color::Gray))));
            assert(texts.take(i + 1).map_values(show) =~= texts.take(i as int).map_values(
                show,
            ).push(show(texts[i as int])));
        }
        assert(texts.take(texts.len() as int) =~= texts);
    }

    /// Adds the lines that show a cell.
    fn push_cell(&self, lines: &mut Vec<StyledLine>, i: usize)
        requires
            i < self.session.cells().len(),
        ensures
            styled_lines(final(lines)@) == styled_lines(old(lines)@) + self.shown(i as int),
    {
        let doc = self.session.doc();
        let ghost model = self.session.cells()[i as int];
        assert(doc.cells@[i as int].describes(doc.text@, model));
        assert(i < doc.cells.len());
        let cell = &doc.cells[i];
        let running: Option<usize> = match self.running {
            Some((index, _)) => Some(index),
            None => None,
        };
        let finished: Option<bool> = match self.finished.get(&i) {
            Some(success) => Some(*success),
            None => None,
        };
        let state = cell_state(i, running, finished);
        let color = marker_color(state);
        let style = if i == self.selected {
            TextStyle { fg: Some(Color::Black), bg: Some(color), bold: true }
        } else {
            in_color(color)
        };
        let result = doc.result_at(i);
        let ghost start = styled_lines(lines@);
        push_line(
            lines,
            write_marker_line(cell.display_number(), result.is_some(), &cell.out_file, style),
        );
        self.push_command(lines, cell.command.as_str(), state);
        let ghost before = styled_lines(lines@);
        match state {
            CellState::Running => {
                let mut live = self.live_lines();
                let ghost added = live@;
                lines.append(&mut live);
                assert(styled_lines(lines@) =~= before + styled_lines(added));
            },
            _ => {
                match result {
                    Some(r) => {
                        self.push_result(lines, r);
                    },
                    None => {},
                }
            },
        }
        push_line(lines, empty_line());
        assert(styled_lines(lines@) =~= start + self.shown(i as int));
    }

    /// The lines to draw.
    pub fn render_lines(&self) -> (rendered: Rendered)
        ensures
            ({
                let count = self.session.cells().len();
                &&& styled_lines(rendered.lines@) == (if count == 0 {
                    seq![
                        one(
                            "  No shell / sh / bash / zsh code block found."@,
                            colored(Color::DarkGray),
                        ),
                    ]
                } else {
                    self.shown_up_to(count as int)
                })
                &&& rendered.spans@.len() == count
                &&& forall|i: int|
                    0 <= i < count ==> (#[trigger] rendered.spans@[i]).0 == self.shown_up_to(
                        i,
                    ).len() && rendered.spans@[i].1 == self.shown_up_to(i + 1).len()
            }),
    {
        let mut lines: Vec<StyledLine> = Vec::new();
        let mut spans: Vec<(usize, usize)> = Vec::new();
        let count = self.session.len();
        assert(styled_lines(lines@) =~= Seq::empty());
        for i in 0..count
            invariant
                count == self.session.cells().len(),
                styled_lines(lines@) == self.shown_up_to(i as int),
                lines@.len() == self.shown_up_to(i as int).len(),
                spans@.len() == i,
                forall|j: int|
                    0 <= j < i ==> (#[trigger] spans@[j]).0 == self.shown_up_to(j).len()
                        && spans@[j].1 == self.shown_up_to(j + 1).len(),
        {
            let start = lines.len();
            self.push_cell(&mut lines, i);
            assert(styled_lines(lines@).len() == lines@.len());
            spans.push((start, lines.len()));
        }
        if count == 0 {
            let text = "  No shell / sh / bash / zsh code block found.".to_owned();
            push_line(&mut lines, line_of_one(styled(text, in_color(Color::DarkGray))));
            assert(styled_lines(lines@) =~= seq![
                one(
                    "  No shell / sh / bash / zsh code block found."@,
                    colored(Color::DarkGray),
                ),
            ]);
        }
        Rendered { lines, spans }
    }
}

/// Where to scroll so that lines `start` to `end` are on screen: no further than needed, and to
/// their top when they do not fit.
pub open spec fn scrolled(scroll: int, viewport: int, start: int, end: int) -> int {
    if start < scroll {
        start
    } else if end > scroll + viewport {
        if end - viewport < start {
            if end < viewport {
                0
            } else {
                end - viewport
            }
        } else {
            start
        }
    } else {
        scroll
    }
}

/// The smaller of two numbers.
pub open spec fn least(a: int, b: int) -> int {
    if a < b {
        a
    } else {
        b
    }
}

/// The last of `count` things, counted from zero; zero when there are none.
pub open spec fn last_of(count: int) -> int {
    if count > 0 {
        count - 1
    } else {
        0
    }
}

/// What a key asks the caller to do.
#[derive(Debug, Clone, Copy, PartialEq, Eq, Structural)]
pub enum Action {
    /// Nothing.
    Nothing,
    /// Read the file again.
    Reload,
    /// Run a cell.
    Run(usize),
    /// Run so many cells in order: all there are.
    RunAll(usize),
}

/// Whether a run of all cells may go on to the next cell.
#[derive(Debug, Clone, Copy, PartialEq, Eq, Structural)]
pub enum Batch {
    Continue,
    Stop,
}

/// The character of the spinner in a phase.
pub open spec fn spinner(phase: int) -> char {
    if phase % 4 == 0 {
        '|'
    } else if phase % 4 == 1 {
        '/'
    } else if phase % 4 == 2 {
        '-'
    } else {
        '\\'
    }
}

impl App {
    /// Whether one of the cells is selected; the first place when there are none.
    pub open spec fn selects_a_cell(&self) -> bool {
        self.selected == 0 || self.selected < self.session.cells().len()
    }

    /// Whether the session is the same as that of `other`.
    pub open spec fn same_session(&self, other: App) -> bool {
        self.session == other.session
    }

    /// Whether the run state is the same as that of `other`.
    pub open spec fn same_run(&self, other: App) -> bool {
        &&& self.running == other.running
        &&& self.live == other.live
        &&& self.finished == other.finished
    }

    /// Whether the selection and what is shown are the same as those of `other`.
    pub open spec fn same_place(&self, other: App) -> bool {
        &&& self.selected == other.selected
        &&& self.scroll == other.scroll
        &&& self.viewport == other.viewport
    }

    /// Takes the height of the area that the lines are drawn in, its two borders included. At
    /// least one line is shown.
    pub fn resize(&mut self, height: u16)
        ensures
            final(self).viewport == (if height > 3 {
                height - 2
            } else {
                1
            }),
            final(self).selected == old(self).selected,
            final(self).scroll == old(self).scroll,
            final(self).same_session(*old(self)),
            final(self).same_run(*old(self)),
            final(self).status == old(self).status,
            final(self).quit == old(self).quit,
    {
        self.viewport = if height > 3 {
            (height - 2) as usize
        } else {
            1
        };
    }

    /// Scrolls so that the selected cell is on screen, and something is.
    pub fn adjust_scroll(&mut self, rendered: &Rendered)
        ensures
            ({
                let spans = rendered.spans@;
                let place = old(self).selected as int;
                let to = if place < spans.len() {
                    scrolled(
                        old(self).scroll as int,
                        old(self).viewport as int,
                        spans[place].0 as int,
                        spans[place].1 as int,
                    )
                } else {
                    old(self).scroll as int
                };
                final(self).scroll == least(to, last_of(rendered.lines@.len() as int))
            }),
            final(self).selected == old(self).selected,
            final(self).viewport == old(self).viewport,
            final(self).same_session(*old(self)),
            final(self).same_run(*old(self)),
            final(self).status == old(self).status,
            final(self).quit == old(self).quit,
    {
        if self.selected < rendered.spans.len() {
            let (start, end) = rendered.spans[self.selected];
            if start < self.scroll {
                self.scroll = start;
            } else if end > self.scroll && end - self.scroll > self.viewport {
                let top: usize = if end < self.viewport {
                    0
                } else {
                    end - self.viewport
                };
                self.scroll = if top < start {
                    top
                } else {
                    start
                };
            }
        }
        let last: usize = if rendered.lines.len() > 0 {
            rendered.lines.len() - 1
        } else {
            0
        };
        if self.scroll > last {
            self.scroll = last;
        }
    }

    /// Moves the selection by `delta` cells, and no further than to the first or the last one.
    pub fn select(&mut self, delta: isize)
        ensures
            final(self).selected == (if old(self).session.cells().len() == 0 {
                old(self).selected as int
            } else if old(self).selected + delta < 0 {
                0
            } else {
                least(old(self).selected + delta, old(self).session.cells().len() - 1)
            }),
            old(self).selects_a_cell() ==> final(self).selects_a_cell(),
            final(self).scroll == old(self).scroll,
            final(self).viewport == old(self).viewport,
            final(self).same_session(*old(self)),
            final(self).same_run(*old(self)),
            final(self).status == old(self).status,
            final(self).quit == old(self).quit,
    {
        let count = self.session.len();
        if count == 0 {
            return;
        }
        let last = count - 1;
        let target: i128 = self.selected as i128 + delta as i128;
        self.selected = if target < 0 {
            0
        } else if target > last as i128 {
            last
        } else {
            target as usize
        };
    }

    /// Handles a key that was pressed while nothing runs.
    pub fn handle_key(&mut self, key: KeyPress) -> (action: Action)
        ensures
            old(self).selects_a_cell() ==> final(self).selects_a_cell(),
            old(self).selects_a_cell() ==> (action matches Action::Run(index) ==> index < old(
                self,
            ).session.cells().len()),
            final(self).same_session(*old(self)),
            final(self).same_run(*old(self)),
            final(self).status == old(self).status,
            final(self).viewport == old(self).viewport,
            final(self).quit == (old(self).quit || quits(key)),
            final(self).selected == place_after(
                key,
                old(self).selected as int,
                old(self).session.cells().len() as int,
            ),
            final(self).scroll == scroll_after(key, old(self).scroll as int),
            action == action_after(key, old(self).selected, old(self).session.cells().len()),
            ({
                let count = old(self).session.cells().len() as int;
                let was = old(self).selected as int;
                let place = if quits(key) || count == 0 && !moves_home(key.code) && !moves_end(
                    key.code,
                ) {
                    was
                } else if moves_down(key.code) {
                    least(was + 1, count - 1)
                } else if moves_up(key.code) {
                    least(last_of(was), count - 1)
                } else if moves_home(key.code) {
                    0
                } else if moves_end(key.code) {
                    last_of(count)
                } else {
                    was
                };
                &&& final(self).selected == place
                &&& final(self).scroll == (if quits(key) {
                    old(self).scroll as int
                } else if moves_home(key.code) {
                    0
                } else if key.code is PageDown {
                    least(old(self).scroll + PAGE_LINES, usize::MAX as int)
                } else if key.code is PageUp {
                    if old(self).scroll < PAGE_LINES {
                        0
                    } else {
                        old(self).scroll - PAGE_LINES
                    }
                } else {
                    old(self).scroll as int
                })
                &&& action == (if quits(key) {
                    Action::Nothing
                } else if key.code == KeyCode::Char('R') {
                    Action::Reload
                } else if (key.code is Enter || key.code == KeyCode::Char('r')) && count > 0 {
                    Action::Run(old(self).selected)
                } else if key.code == KeyCode::Char('a') {
                    Action::RunAll(count as usize)
                } else {
                    Action::Nothing
                })
            }),
    {
        if is_quit_key(key) {
            self.quit = true;
            return Action::Nothing;
        }
        match key.code {
            KeyCode::Char('j') | KeyCode::Down => {
                self.select(1);
            },
            KeyCode::Char('k') | KeyCode::Up => {
                self.select(-1);
            },
            KeyCode::Char('g') | KeyCode::Home => {
                self.selected = 0;
                self.scroll = 0;
            },
            KeyCode::Char('G') | KeyCode::End => {
                let count = self.session.len();
                self.selected = if count > 0 {
                    count - 1
                } else {
                    0
                };
            },
            KeyCode::PageDown => {
                self.scroll = if self.scroll <= usize::MAX - PAGE_LINES {
                    self.scroll + PAGE_LINES
                } else {
                    usize::MAX
                };
            },
            KeyCode::PageUp => {
                self.scroll = if self.scroll < PAGE_LINES {
                    0
                } else {
                    self.scroll - PAGE_LINES
                };
            },
            KeyCode::Char('R') => {
                return Action::Reload;
            },
            KeyCode::Enter | KeyCode::Char('r') => {
                if !self.session.is_empty() {
                    return Action::Run(self.selected);
                }
            },
            KeyCode::Char('a') => {
                return Action::RunAll(self.session.len());
            },
            _ => {},
        }
        Action::Nothing
    }

    /// Handles a key that was pressed while a command runs. Only quitting and stopping count;
    /// anything else would fire when the command ends. Says whether to stop the command.
    pub fn handle_key_while_running(&mut self, key: KeyPress) -> (cancel: bool)
        ensures
            cancel == cancels(key),
            final(self).quit == (old(self).quit || quits(key)),
            final(self).same_session(*old(self)),
            final(self).same_run(*old(self)),
            final(self).same_place(*old(self)),
            final(self).status == old(self).status,
    {
        if is_cancel_key(key) {
            self.quit = true;
            return true;
        }
        if is_quit_key(key) {
            self.quit = true;
        }
        false
    }

    /// The next of `count` cells that are run in order, of which `index` come before it. Quitting
    /// ends the run.
    pub fn next_of_all(&mut self, index: usize, count: usize) -> (run: bool)
        ensures
            run == (index < count && !old(self).quit),
            final(self).selected == (if run {
                index
            } else {
                old(self).selected
            }),
            final(self).scroll == old(self).scroll,
            final(self).viewport == old(self).viewport,
            final(self).quit == old(self).quit,
            final(self).same_session(*old(self)),
            final(self).same_run(*old(self)),
            final(self).status == old(self).status,
    {
        if index < count && !self.quit {
            self.selected = index;
            true
        } else {
            false
        }
    }

    /// Takes the text of the file anew, or the reason why it could not be read.
    pub fn reload(&mut self, read: Result<&str, &str>)
        ensures
            match read {
                Ok(text) => {
                    &&& final(self).session.document().text@ == text@
                    &&& final(self).session.same_settings(old(self).session)
                    &&& final(self).selected == least(
                        old(self).selected as int,
                        last_of(final(self).session.cells().len() as int),
                    )
                    &&& final(self).selects_a_cell()
                    &&& final(self).finished@ == Map::<usize, bool>::empty()
                    &&& final(self).status@ == "Reloaded."@
                },
                Err(error) => {
                    &&& final(self).session == old(self).session
                    &&& final(self).selected == old(self).selected
                    &&& final(self).finished == old(self).finished
                    &&& final(self).status@ == "Reload failed: "@ + error@
                },
            },
            final(self).scroll == old(self).scroll,
            final(self).viewport == old(self).viewport,
            final(self).running == old(self).running,
            final(self).live == old(self).live,
            final(self).quit == old(self).quit,
    {
        match read {
            Ok(text) => {
                self.take_text(text);
                self.status = "Reloaded.".to_owned();
            },
            Err(error) => {
                let mut status = "Reload failed: ".to_owned();
                status.append(error);
                self.status = status;
            },
        }
    }

    /// Takes the text of the file anew. Which cells have been run means nothing any more: the
    /// cell at a place may be another one now.
    fn take_text(&mut self, text: &str)
        ensures
            final(self).session.document().text@ == text@,
            final(self).session.same_settings(old(self).session),
            final(self).selected == least(
                old(self).selected as int,
                last_of(final(self).session.cells().len() as int),
            ),
            final(self).finished@ == Map::<usize, bool>::empty(),
            final(self).scroll == old(self).scroll,
            final(self).viewport == old(self).viewport,
            final(self).running == old(self).running,
            final(self).live == old(self).live,
            final(self).status == old(self).status,
            final(self).quit == old(self).quit,
    {
        self.session.reload(text);
        let count = self.session.len();
        let last: usize = if count > 0 {
            count - 1
        } else {
            0
        };
        if self.selected > last {
            self.selected = last;
        }
        self.finished.clear();
    }

    /// Takes the text of the file anew after a result was refused, if it could be read. The
    /// status keeps saying why the result was refused.
    pub fn reload_after_conflict(&mut self, read: Option<&str>)
        ensures
            match read {
                Some(text) => {
                    &&& final(self).session.document().text@ == text@
                    &&& final(self).session.same_settings(old(self).session)
                    &&& final(self).selected == least(
                        old(self).selected as int,
                        last_of(final(self).session.cells().len() as int),
                    )
                    &&& final(self).selects_a_cell()
                    &&& final(self).finished@ == Map::<usize, bool>::empty()
                },
                None => {
                    &&& final(self).session == old(self).session
                    &&& final(self).selected == old(self).selected
                    &&& final(self).finished == old(self).finished
                },
            },
            final(self).scroll == old(self).scroll,
            final(self).viewport == old(self).viewport,
            final(self).running == old(self).running,
            final(self).live == old(self).live,
            final(self).status == old(self).status,
            final(self).quit == old(self).quit,
    {
        match read {
            Some(text) => {
                self.take_text(text);
            },
            None => {},
        }
    }

    /// A cell is run now. What was printed before is forgotten.
    pub fn begin_run(&mut self, index: usize)
        ensures
            final(self).running == Some((index, 0usize)),
            final(self).live.text@ == Seq::<char>::empty(),
            final(self).live.limit == old(self).live.limit,
            final(self).finished == old(self).finished,
            final(self).same_session(*old(self)),
            final(self).same_place(*old(self)),
            final(self).status == old(self).status,
            final(self).quit == old(self).quit,
    {
        self.live.clear();
        self.running = Some((index, 0));
    }

    /// Time passes while a cell is run.
    pub fn tick(&mut self)
        ensures
            final(self).running == (match old(self).running {
                Some((index, phase)) => Some((index, spinner_after(phase))),
                None => None,
            }),
            final(self).live == old(self).live,
            final(self).finished == old(self).finished,
            final(self).same_session(*old(self)),
            final(self).same_place(*old(self)),
            final(self).status == old(self).status,
            final(self).quit == old(self).quit,
    {
        match self.running {
            Some((index, phase)) => {
                let next: usize = if phase < 3 {
                    phase + 1
                } else {
                    0
                };
                self.running = Some((index, next));
            },
            None => {},
        }
    }

    /// The running command has printed something.
    pub fn collect_output(&mut self, chunk: &str)
        ensures
            final(self).live.text@ == live::tail_of(
                old(self).live.text@ + chunk@,
                old(self).live.limit as nat,
            ),
            final(self).live.limit == old(self).live.limit,
            final(self).running == old(self).running,
            final(self).finished == old(self).finished,
            final(self).same_session(*old(self)),
            final(self).same_place(*old(self)),
            final(self).status == old(self).status,
            final(self).quit == old(self).quit,
    {
        self.live.push(chunk);
    }

    /// The command has ended. What it printed is not shown any more.
    pub fn end_run(&mut self)
        ensures
            final(self).running is None,
            final(self).live.text@ == Seq::<char>::empty(),
            final(self).live.limit == old(self).live.limit,
            final(self).finished == old(self).finished,
            final(self).same_session(*old(self)),
            final(self).same_place(*old(self)),
            final(self).status == old(self).status,
            final(self).quit == old(self).quit,
    {
        self.running = None;
        self.live.clear();
    }

    /// What became of a run, and whether a run of all cells may go on.
    ///
    /// A result that was refused usually means that the file has changed. To go on would run the
    /// commands as they were, so a run of all cells stops there.
    pub fn conclude(&mut self, index: usize, conclusion: Conclusion<'_>) -> (batch: Batch)
        requires
            index < usize::MAX,
        ensures
            final(self).finished@ == finished_after(old(self).finished@, index, conclusion),
            batch == batch_after(conclusion),
            match conclusion {
                Conclusion::Written(outcome) => {
                    &&& batch == Batch::Continue
                    &&& final(self).finished@ == old(self).finished@.insert(
                        index,
                        outcome.succeeded(),
                    )
                    &&& final(self).status@ == "Cell "@ + number::decimal((index + 1) as nat)
                        + " done ("@ + outcome.status() + ")"@
                },
                Conclusion::Refused(error) => {
                    &&& batch == Batch::Stop
                    &&& final(self).finished == old(self).finished
                    &&& final(self).status@ == "Writing the result failed: "@ + error@
                },
                Conclusion::NotStarted(error) => {
                    &&& batch == Batch::Continue
                    &&& final(self).finished@ == old(self).finished@.insert(index, false)
                    &&& final(self).status@ == "The run failed: "@ + error@
                },
            },
            final(self).running == old(self).running,
            final(self).live == old(self).live,
            final(self).same_session(*old(self)),
            final(self).same_place(*old(self)),
            final(self).quit == old(self).quit,
    {
        match conclusion {
            Conclusion::Written(outcome) => {
                self.finished.insert(index, outcome.is_success());
                let mut status = "Cell ".to_owned();
                status.append(number::write_decimal((index + 1) as u64).as_str());
                status.append(" done (");
                status.append(outcome.status_text().as_str());
                status.append(")");
                self.status = status;
                Batch::Continue
            },
            Conclusion::Refused(error) => {
                let mut status = "Writing the result failed: ".to_owned();
                status.append(error);
                self.status = status;
                Batch::Stop
            },
            Conclusion::NotStarted(error) => {
                self.finished.insert(index, false);
                let mut status = "The run failed: ".to_owned();
                status.append(error);
                self.status = status;
                Batch::Continue
            },
        }
    }

    /// What the status line says.
    pub fn status_line(&self) -> (line: String)
        requires
            self.running matches Some((index, _)) ==> index < usize::MAX,
        ensures
            line@ == (match self.running {
                Some((index, phase)) => seq![spinner(phase as int)] + " running cell "@
                    + number::decimal((index + 1) as nat),
                None => self.status@,
            }),
    {
        match self.running {
            Some((index, phase)) => {
                let mut line = String::new();
                let turn: usize = phase % 4;
                let c = if turn == 0 {
                    '|'
                } else if turn == 1 {
                    '/'
                } else if turn == 2 {
                    '-'
                } else {
                    '\\'
                };
                line.push(c);
                line.append(" running cell ");
                line.append(number::write_decimal((index + 1) as u64).as_str());
                assert(line@ =~= seq![spinner(phase as int)] + " running cell "@ + number::decimal(
                    (index + 1) as nat,
                ));
                line
            },
            None => self.status.as_str().to_owned(),
        }
    }
}

/// What became of a run.
pub enum Conclusion<'a> {
    /// Its result was written back.
    Written(&'a ExecOutcome),
    /// Its result was not written back, for this reason.
    Refused(&'a str),
    /// The shell did not start, for this reason.
    NotStarted(&'a str),
}

/// The phase of the spinner after another.
pub open spec fn spinner_after(phase: usize) -> usize {
    if phase < 3 {
        (phase + 1) as usize
    } else {
        0
    }
}

/// Whether a key moves the selection down.
pub open spec fn moves_down(code: KeyCode) -> bool {
    code == KeyCode::Char('j') || code is Down
}

/// Whether a key moves the selection up.
pub open spec fn moves_up(code: KeyCode) -> bool {
    code == KeyCode::Char('k') || code is Up
}

/// Whether a key moves the selection to the first cell.
pub open spec fn moves_home(code: KeyCode) -> bool {
    code == KeyCode::Char('g') || code is Home
}

/// Whether a key moves the selection to the last cell.
pub open spec fn moves_end(code: KeyCode) -> bool {
    code == KeyCode::Char('G') || code is End
}

/// After scrolling, the selected cell is on screen: as a whole, or from its top on when it does
/// not fit.
pub proof fn law_selected_is_on_screen(
    scroll: int,
    viewport: int,
    start: int,
    end: int,
    lines: int,
)
    requires
        0 <= scroll,
        1 <= viewport,
        0 <= start < end <= lines,
    ensures
        ({
            let to = least(scrolled(scroll, viewport, start, end), last_of(lines));
            &&& to <= start < to + viewport
            &&& end <= to + viewport || to == start
        }),
{
}

/// The lines of a cell stand where its span says, among all lines.
proof fn lemma_shown_at(app: App, i: int, n: int)
    requires
        0 <= i < n,
    ensures
        app.shown_up_to(i + 1).len() == app.shown_up_to(i).len() + app.shown(i).len(),
        app.shown_up_to(i + 1).len() <= app.shown_up_to(n).len(),
        app.shown_up_to(n).subrange(
            app.shown_up_to(i).len() as int,
            app.shown_up_to(i + 1).len() as int,
        ) == app.shown(i),
    decreases n - i,
{
    let from = app.shown_up_to(i).len() as int;
    let to = app.shown_up_to(i + 1).len() as int;
    if n == i + 1 {
        assert(app.shown_up_to(n).subrange(from, to) =~= app.shown(i));
    } else {
        lemma_shown_at(app, i, n - 1);
        assert(app.shown_up_to(n).subrange(from, to) =~= app.shown_up_to(n - 1).subrange(from, to));
    }
}

/// The result of a cell is shown, however its last run went: for every cell that is not being run
/// and has a result, the lines of that result are among its lines, each with its own text, in
/// order, right after the lines of its command and a blank line.
pub proof fn law_result_is_shown(app: App, i: int, result: Seq<char>, j: int)
    requires
        0 <= i < app.session.cells().len(),
        app.running matches Some((current, _)) ==> current != i,
        writeback::result_of(app.session.document().text@, app.session.cells()[i]) == Some(result),
        0 <= j < text::text_lines(result).len(),
    ensures
        ({
            let all = app.shown_up_to(app.session.cells().len() as int);
            let from = app.shown_up_to(i).len() as int;
            let to = app.shown_up_to(i + 1).len() as int;
            let first = from + 1 + text::text_lines(app.session.cells()[i].command).len() + 1;
            &&& to <= all.len()
            &&& from < first - 1
            &&& all[first - 1].len() == 0
            &&& first + text::text_lines(result).len() == to - 1
            &&& all[first + j].len() == 1
            &&& all[first + j][0].text == "   "@ + text::text_lines(result)[j]
        }),
{
    let n = app.session.cells().len() as int;
    let all = app.shown_up_to(n);
    lemma_shown_at(app, i, n);
    let from = app.shown_up_to(i).len() as int;
    let to = app.shown_up_to(i + 1).len() as int;
    let here = app.shown(i);
    let c = text::text_lines(app.session.cells()[i].command).len() as int;
    let lines = text::text_lines(result);
    assert(here.len() == 1 + c + 1 + lines.len() + 1);
    assert(all.subrange(from, to)[1 + c] == here[1 + c]);
    assert(all.subrange(from, to)[1 + c + 1 + j] == here[1 + c + 1 + j]);
    assert(here[1 + c] == blank_line());
    assert(here[1 + c + 1 + j] == result_line(lines[j]));
}

/// Every cell is shown with its number, its destination and all lines of its command, in the order
/// of the document, whatever state it is in; and whether it has a result is said by its marker.
pub proof fn law_command_is_shown(app: App, i: int, j: int)
    requires
        0 <= i < app.session.cells().len(),
        0 <= j < text::text_lines(app.session.cells()[i].command).len(),
    ensures
        ({
            let cell = app.session.cells()[i];
            let all = app.shown_up_to(app.session.cells().len() as int);
            let from = app.shown_up_to(i).len() as int;
            let ran = writeback::result_of(app.session.document().text@, cell) is Some;
            &&& app.shown_up_to(i + 1).len() <= all.len()
            &&& from + 1 + j < app.shown_up_to(i + 1).len()
            &&& all[from].len() == 2
            &&& all[from][0].text == " ["@ + number::decimal((i + 1) as nat) + "] > "@ + (if ran {
                "Re-run"@
            } else {
                "Run   "@
            }) + " "@
            &&& all[from][1].text == (match cell.out_file {
                Some(path) => "  -> "@ + path,
                None => Seq::empty(),
            })
            &&& all[from + 1 + j].len() == 2
            &&& all[from + 1 + j][1].text == text::text_lines(cell.command)[j]
        }),
{
    let n = app.session.cells().len() as int;
    let cell = app.session.cells()[i];
    let all = app.shown_up_to(n);
    lemma_shown_at(app, i, n);
    let from = app.shown_up_to(i).len() as int;
    let to = app.shown_up_to(i + 1).len() as int;
    let here = app.shown(i);
    assert(all.subrange(from, to)[0] == here[0]);
    assert(all.subrange(from, to)[1 + j] == here[1 + j]);
    assert(here[1 + j] == command_line(text::text_lines(cell.command)[j], app.state(i)));
}

/// While a cell is run, it shows the last lines of what its command has printed in place of its
/// result, newest last; that nothing was printed is said once; and the height does not change.
pub proof fn law_running_cell_shows_its_output(app: App, i: int, phase: usize)
    requires
        0 <= i < app.session.cells().len(),
        i <= usize::MAX,
        app.running == Some((i as usize, phase)),
    ensures
        ({
            let all = app.shown_up_to(app.session.cells().len() as int);
            let from = app.shown_up_to(i).len() as int;
            let to = app.shown_up_to(i + 1).len() as int;
            let first = from + 1 + text::text_lines(app.session.cells()[i].command).len() + 1;
            let printed = text::text_lines(text::strip_end(app.live.text@, '\n'));
            &&& to <= all.len()
            &&& to == first + 3 + 1
            &&& all[first - 1].len() == 0
            &&& forall|j: int|
                #![trigger all[first + j]]
                0 <= j < 3 ==> all[first + j].len() == 1 && (printed.len() >= 3
                    ==> all[first + j][0].text == "   "@ + printed[printed.len() - 3 + j]) && (
                j < printed.len() < 3 ==> all[first + j][0].text == "   "@ + printed[j])
            &&& printed.len() == 0 ==> all[first][0].text == "   (no output yet)"@
        }),
{
    let n = app.session.cells().len() as int;
    let all = app.shown_up_to(n);
    lemma_shown_at(app, i, n);
    let from = app.shown_up_to(i).len() as int;
    let to = app.shown_up_to(i + 1).len() as int;
    let here = app.shown(i);
    let c = text::text_lines(app.session.cells()[i].command).len() as int;
    let printed = text::text_lines(text::strip_end(app.live.text@, '\n'));
    let tail = live::last_lines(printed, 3);
    assert(app.state(i) == CellState::Running);
    assert(here.len() == 1 + c + 1 + 3 + 1);
    assert(all.subrange(from, to)[1 + c] == here[1 + c]);
    let first = from + 1 + c + 1;
    assert forall|j: int| #![trigger all[first + j]] 0 <= j < 3 implies all[first + j].len() == 1 && (
    printed.len() >= 3 ==> all[first + j][0].text == "   "@ + printed[printed.len() - 3 + j]) && (
    j < printed.len() < 3 ==> all[first + j][0].text == "   "@ + printed[j]) by {
        assert(all.subrange(from, to)[1 + c + 1 + j] == here[1 + c + 1 + j]);
        assert(here[1 + c + 1 + j] == one(live_text(tail, j), colored(Color::DarkGray)));
    }
    assert(all.subrange(from, to)[1 + c + 1] == here[1 + c + 1]);
    assert(here[1 + c + 1] == one(live_text(tail, 0), colored(Color::DarkGray)));
}

/// The marker of the selected cell stands out, and no other; the colour of a marker says where its
/// cell stands: running, run with success, run without it, or not run.
pub proof fn law_marker_tells_the_state(app: App, i: int)
    requires
        0 <= i < app.session.cells().len(),
        i <= usize::MAX,
    ensures
        ({
            let marker = app.shown(i)[0][0].style;
            let color = if i == app.selected {
                marker.bg
            } else {
                marker.fg
            };
            let running = app.running matches Some((current, _)) && current == i;
            let run = app.finished@.dom().contains(i as usize);
            &&& marker.bold <==> i == app.selected
            &&& marker.bg is Some <==> i == app.selected
            &&& color == Some(Color::Yellow) <==> running
            &&& color == Some(Color::Blue) <==> !running && run && app.finished@[i as usize]
            &&& color == Some(Color::Red) <==> !running && run && !app.finished@[i as usize]
            &&& color == Some(Color::Green) <==> !running && !run
        }),
{
}

/// The keys that quit are `q`, escape and control with `c`; only the last one stops a command.
/// Each of the keys that move the selection moves it one way, and none of them quits.
pub proof fn law_keys_are_told_apart(key: KeyPress)
    ensures
        quits(key) <==> (key.code == KeyCode::Char('q') || key.code == KeyCode::Esc || (key.code
            == KeyCode::Char('c') && key.control)),
        cancels(key) <==> key.code == KeyCode::Char('c') && key.control,
        moves_down(key.code) <==> key.code == KeyCode::Char('j') || key.code == KeyCode::Down,
        moves_up(key.code) <==> key.code == KeyCode::Char('k') || key.code == KeyCode::Up,
        moves_home(key.code) <==> key.code == KeyCode::Char('g') || key.code == KeyCode::Home,
        moves_end(key.code) <==> key.code == KeyCode::Char('G') || key.code == KeyCode::End,
        quits(key) ==> !moves_down(key.code) && !moves_up(key.code) && !moves_home(key.code)
            && !moves_end(key.code),
{
}

/// Scrolling goes no further than needed: a cell that is on screen as a whole stays where it is,
/// and one that is not is brought to the nearer edge.
pub proof fn law_scrolls_no_further_than_needed(scroll: int, viewport: int, start: int, end: int)
    requires
        0 <= scroll,
        1 <= viewport,
        0 <= start < end,
    ensures
        ({
            let to = scrolled(scroll, viewport, start, end);
            &&& scroll <= start && end <= scroll + viewport ==> to == scroll
            &&& start < scroll ==> to == start
            &&& scroll <= start && scroll + viewport < end && end - start <= viewport ==> to
                == end - viewport
            &&& scroll <= start && scroll + viewport < end && end - start > viewport ==> to == start
            &&& to >= 0
        }),
{
}

/// The spinner turns: four phases follow each other, each with a character of its own.
pub proof fn law_spinner_turns(phase: usize)
    requires
        phase < 4,
    ensures
        spinner_after(phase) < 4,
        spinner(spinner_after(phase) as int) != spinner(phase as int),
        spinner_after(spinner_after(spinner_after(spinner_after(phase)))) == phase,
        spinner(spinner_after(spinner_after(phase)) as int) != spinner(phase as int),
{
}

/// The selection stays within the document: the smaller of two places is one of them, and the last
/// of some things is the one after which none follows.
pub proof fn law_places_stay_in_the_document(a: int, b: int, count: int)
    ensures
        least(a, b) <= a && least(a, b) <= b,
        least(a, b) == a || least(a, b) == b,
        count > 0 ==> last_of(count) == count - 1,
        count <= 0 ==> last_of(count) == 0,
{
}

/// Commands that have been run are dimmed, those still to come and the one that runs are not; and a
/// blank line follows every cell.
pub proof fn law_run_cells_are_dimmed(app: App, i: int, j: int)
    requires
        0 <= i < app.session.cells().len(),
        i <= usize::MAX,
        0 <= j < text::text_lines(app.session.cells()[i].command).len(),
    ensures
        ({
            let running = app.running matches Some((current, _)) && current == i;
            let run = app.finished@.dom().contains(i as usize);
            let style = app.shown(i)[1 + j][1].style;
            &&& !running && run ==> style.fg == Some(Color::DarkGray)
            &&& running || !run ==> style.fg is None
            &&& app.shown(i).last().len() == 0
        }),
{
    let here = app.shown(i);
    assert(here[1 + j] == command_line(
        text::text_lines(app.session.cells()[i].command)[j],
        app.state(i),
    ));
    assert(here.last() == blank_line());
}

/// The selected cell after a key, of `count` cells.
pub open spec fn place_after(key: KeyPress, was: int, count: int) -> int {
    if quits(key) {
        was
    } else if moves_home(key.code) {
        0
    } else if moves_end(key.code) {
        last_of(count)
    } else if count == 0 {
        was
    } else if moves_down(key.code) {
        least(was + 1, count - 1)
    } else if moves_up(key.code) {
        least(last_of(was), count - 1)
    } else {
        was
    }
}

/// The first line that is shown after a key.
pub open spec fn scroll_after(key: KeyPress, scroll: int) -> int {
    if quits(key) {
        scroll
    } else if moves_home(key.code) {
        0
    } else if key.code is PageDown {
        least(scroll + PAGE_LINES, usize::MAX as int)
    } else if key.code is PageUp && scroll >= PAGE_LINES {
        scroll - PAGE_LINES
    } else if key.code is PageUp {
        0
    } else {
        scroll
    }
}

/// What a key asks the caller to do, with `count` cells.
pub open spec fn action_after(key: KeyPress, selected: usize, count: nat) -> Action {
    if quits(key) {
        Action::Nothing
    } else if key.code == KeyCode::Char('R') {
        Action::Reload
    } else if key.code == KeyCode::Char('a') {
        Action::RunAll(count as usize)
    } else if (key.code is Enter || key.code == KeyCode::Char('r')) && count > 0 {
        Action::Run(selected)
    } else {
        Action::Nothing
    }
}

/// The keys move the selection through the document: down to the next cell and up to the one
/// before, unless there is none; to the first cell and to the last. Any other key leaves it alone.
/// Down and then up comes back.
pub proof fn law_keys_move_the_selection(key: KeyPress, was: int, count: int)
    requires
        0 <= was < count,
    ensures
        0 <= place_after(key, was, count) < count,
        ({
            let press = |code: KeyCode| KeyPress { code, control: false };
            &&& place_after(press(KeyCode::Down), was, count) == (if was + 1 < count {
                was + 1
            } else {
                was
            })
            &&& place_after(press(KeyCode::Up), was, count) == (if was > 0 {
                was - 1
            } else {
                0
            })
            &&& place_after(press(KeyCode::Home), was, count) == 0
            &&& place_after(press(KeyCode::End), was, count) == count - 1
            &&& was + 1 < count ==> place_after(
                press(KeyCode::Up),
                place_after(press(KeyCode::Down), was, count),
                count,
            ) == was
            &&& forall|control: bool|
                #![auto]
                {
                    &&& place_after(KeyPress { code: KeyCode::Char('j'), control }, was, count)
                        == place_after(press(KeyCode::Down), was, count)
                    &&& place_after(KeyPress { code: KeyCode::Char('k'), control }, was, count)
                        == place_after(press(KeyCode::Up), was, count)
                    &&& place_after(KeyPress { code: KeyCode::Char('g'), control }, was, count) == 0
                    &&& place_after(KeyPress { code: KeyCode::Char('G'), control }, was, count)
                        == count - 1
                }
        }),
        key.code is Enter || key.code is Esc || key.code is PageUp || key.code is PageDown || key.code
            == KeyCode::Char('q') || key.code == KeyCode::Char('a') || key.code == KeyCode::Char('r')
            || key.code == KeyCode::Char('R') ==> place_after(key, was, count) == was,
{
}

/// The page keys scroll by ten lines, and no further up than to the first line: a page down and
/// then a page up comes back. The key for the first cell scrolls to the top.
pub proof fn law_page_keys_scroll(control: bool, scroll: int)
    requires
        0 <= scroll <= usize::MAX - 10,
    ensures
        ({
            let down = KeyPress { code: KeyCode::PageDown, control };
            let up = KeyPress { code: KeyCode::PageUp, control };
            &&& scroll_after(down, scroll) == scroll + 10
            &&& scroll_after(up, scroll) == (if scroll < 10 {
                0
            } else {
                scroll - 10
            })
            &&& scroll_after(up, scroll_after(down, scroll)) == scroll
            &&& scroll_after(KeyPress { code: KeyCode::Home, control }, scroll) == 0
            &&& scroll_after(KeyPress { code: KeyCode::Down, control }, scroll) == scroll
            &&& scroll_after(KeyPress { code: KeyCode::Enter, control }, scroll) == scroll
        }),
{
}

/// Enter and `r` run the selected cell, `a` runs all cells, and `R` reads the file again; a key that
/// quits or moves runs nothing, and without cells there is nothing to run.
pub proof fn law_keys_run_cells(control: bool, selected: usize, count: nat)
    requires
        count <= usize::MAX,
    ensures
        ({
            let act = |code: KeyCode| action_after(KeyPress { code, control }, selected, count);
            &&& count > 0 ==> act(KeyCode::Enter) == Action::Run(selected)
            &&& count > 0 ==> act(KeyCode::Char('r')) == Action::Run(selected)
            &&& count == 0 ==> act(KeyCode::Enter) == Action::Nothing && act(KeyCode::Char('r'))
                == Action::Nothing
            &&& act(KeyCode::Char('a')) == Action::RunAll(count as usize)
            &&& act(KeyCode::Char('R')) == Action::Reload
            &&& act(KeyCode::Char('q')) == Action::Nothing
            &&& act(KeyCode::Esc) == Action::Nothing
            &&& act(KeyCode::Char('j')) == Action::Nothing
            &&& act(KeyCode::Down) == Action::Nothing
            &&& act(KeyCode::PageDown) == Action::Nothing
        }),
{
}

/// Which cells have been run, and whether they succeeded, after a run.
pub open spec fn finished_after(
    finished: Map<usize, bool>,
    index: usize,
    conclusion: Conclusion<'_>,
) -> Map<usize, bool> {
    match conclusion {
        Conclusion::Written(outcome) => finished.insert(index, outcome.succeeded()),
        Conclusion::Refused(_) => finished,
        Conclusion::NotStarted(_) => finished.insert(index, false),
    }
}

/// Whether a run of all cells goes on after a run.
pub open spec fn batch_after(conclusion: Conclusion<'_>) -> Batch {
    match conclusion {
        Conclusion::Refused(_) => Batch::Stop,
        _ => Batch::Continue,
    }
}

/// A cell that was run is marked by how its run ended, and the marks of the other cells stay. A
/// command that fails does not stop a run of all cells; a result that was refused does, and marks
/// nothing.
pub proof fn law_runs_are_marked_by_how_they_ended(
    finished: Map<usize, bool>,
    index: usize,
    other: usize,
    outcome: &ExecOutcome,
    error: &str,
)
    requires
        other != index,
    ensures
        ({
            let written = finished_after(finished, index, Conclusion::Written(outcome));
            let failed = finished_after(finished, index, Conclusion::NotStarted(error));
            let own = !outcome.timed_out && !outcome.cancelled && outcome.exit_code == Some(0i32);
            &&& written.dom().contains(index) && written[index] == own
            &&& failed.dom().contains(index) && !failed[index]
            &&& written.dom().contains(other) <==> finished.dom().contains(other)
            &&& finished.dom().contains(other) ==> written[other] == finished[other]
            &&& failed.dom().contains(other) <==> finished.dom().contains(other)
            &&& finished.dom().contains(other) ==> failed[other] == finished[other]
            &&& finished_after(finished, index, Conclusion::Refused(error)) == finished
        }),
        batch_after(Conclusion::Written(outcome)) == Batch::Continue,
        batch_after(Conclusion::NotStarted(error)) == Batch::Continue,
        batch_after(Conclusion::Refused(error)) == Batch::Stop,
{
}

} // verus!
