//! Finds the command cells of a Markdown document and their existing results.
//!
//! This is no full Markdown parser: it scans for fenced code blocks. A cell keeps where
//! it stands in the text as byte offsets, so that writing a result back replaces one
//! range and leaves the rest of the document as it is.

use vstd::prelude::*;
use vstd::slice::slice_subrange;

use crate::fence;
use crate::fence::FenceModel;
use crate::info;
use crate::info::ShellInfoModel;
use crate::lines;
use crate::lines::Line;
use crate::link;
use crate::text;

verus! {

/// The line that begins a result block. Results stand between two HTML comments, which
/// do not show when the document is rendered, so that a later run can replace them.
pub const BEGIN_MARKER: &'static str = "<!-- runandlog:begin -->";

/// The line that ends a result block.
pub const END_MARKER: &'static str = "<!-- runandlog:end -->";

/// What a line that begins a result block begins with.
pub const BEGIN_MARKER_PREFIX: &'static str = "<!-- runandlog:begin";

/// A fenced block of a shell language.
pub struct Block {
    /// The line of its opening fence.
    pub open: int,
    /// The line of its closing fence.
    pub close: Option<int>,
    /// The opening fence.
    pub fence: FenceModel,
    /// What the info string says.
    pub shell: ShellInfoModel,
}

/// A command cell, with positions in characters.
pub struct CellModel {
    pub lang: Seq<char>,
    pub command: Seq<char>,
    pub out_file: Option<Seq<char>>,
    pub out_file_in_text: bool,
    pub fence_start: int,
    pub fence_end: int,
    pub result_span: Option<(int, int)>,
    pub insert_at: int,
}

/// The line after a block that is closed on line `close`, or never.
pub open spec fn line_after(lines: Seq<Seq<char>>, close: Option<int>) -> int {
    match close {
        Some(j) => j + 1,
        None => lines.len() as int,
    }
}

pub proof fn lemma_closing_line(lines: Seq<Seq<char>>, from: int, f: FenceModel)
    requires
        0 <= from <= lines.len(),
    ensures
        fence::closing_line(lines, from, f) matches Some(j) ==> from <= j < lines.len()
            && fence::closing(lines[j], f),
        from <= line_after(lines, fence::closing_line(lines, from, f)) <= lines.len(),
    decreases lines.len() - from,
{
    if from < lines.len() && !fence::closing(lines[from], f) {
        lemma_closing_line(lines, from + 1, f);
    }
}

/// The shell blocks of a document, from line `from` on.
pub open spec fn shell_blocks(lines: Seq<Seq<char>>, from: int) -> Seq<Block>
    decreases lines.len() - from,
{
    if from < 0 || from >= lines.len() {
        Seq::empty()
    } else {
        match fence::opening(lines[from]) {
            None => shell_blocks(lines, from + 1),
            Some(f) => {
                let close = fence::closing_line(lines, from + 1, f);
                proof {
                    lemma_closing_line(lines, from + 1, f);
                }
                let rest = shell_blocks(lines, line_after(lines, close));
                match info::shell_info(f.info) {
                    Some(shell) => seq![Block { open: from, close, fence: f, shell }] + rest,
                    None => rest,
                }
            },
        }
    }
}

/// Whether a line is blank.
pub open spec fn is_blank(line: Seq<char>) -> bool {
    text::trim(line).len() == 0
}

/// The first line at or after `from` that is not blank.
pub open spec fn after_blanks(lines: Seq<Seq<char>>, from: int) -> int
    decreases lines.len() - from,
{
    if 0 <= from < lines.len() && is_blank(lines[from]) {
        after_blanks(lines, from + 1)
    } else {
        from
    }
}

/// The first line at or after `from` that is blank or begins a result block.
pub open spec fn paragraph_end(lines: Seq<Seq<char>>, from: int) -> int
    decreases lines.len() - from,
{
    if 0 <= from < lines.len() && !is_blank(lines[from]) && !begins_result(lines[from]) {
        paragraph_end(lines, from + 1)
    } else {
        from
    }
}

/// How many of the first characters of `s` are emphasis marks or spaces.
pub open spec fn leading_marks(s: Seq<char>) -> nat
    decreases s.len(),
{
    if s.len() > 0 && (s[0] == '*' || s[0] == '_' || s[0] == ' ') {
        1 + leading_marks(s.drop_first())
    } else {
        0
    }
}

/// Whether a line begins a paragraph that designates where a result goes.
pub open spec fn designates(line: Seq<char>) -> bool {
    let start = text::trim_start(line);
    let head = start.skip(leading_marks(start) as int);
    text::begins_with(info::lower(head), "result:"@) || text::begins_with(head, "結果:"@)
}

/// Whether a designating paragraph follows, from line `from` on.
pub open spec fn has_paragraph(lines: Seq<Seq<char>>, from: int) -> bool {
    let i = after_blanks(lines, from);
    0 <= i < lines.len() && designates(lines[i])
}

/// The line after the designating paragraph, if one follows, and after blank lines.
pub open spec fn result_line(lines: Seq<Seq<char>>, from: int) -> int {
    let i = after_blanks(lines, from);
    if has_paragraph(lines, from) {
        after_blanks(lines, paragraph_end(lines, i))
    } else {
        i
    }
}

/// Whether a line begins a result block.
pub open spec fn begins_result(line: Seq<char>) -> bool {
    text::begins_with(text::trim_start(line), BEGIN_MARKER_PREFIX@)
}

/// Whether a line ends a result block.
pub open spec fn ends_result(line: Seq<char>) -> bool {
    text::trim(line) == END_MARKER@
}

/// The first line at or after `from` that ends a result block and does not stand inside a
/// code fence.
pub open spec fn end_marker_line(lines: Seq<Seq<char>>, from: int) -> Option<int>
    decreases lines.len() - from,
{
    if from < 0 || from >= lines.len() {
        None
    } else {
        match fence::opening(lines[from]) {
            Some(f) => {
                let close = fence::closing_line(lines, from + 1, f);
                proof {
                    lemma_closing_line(lines, from + 1, f);
                }
                end_marker_line(lines, line_after(lines, close))
            },
            None => if ends_result(lines[from]) {
                Some(from)
            } else {
                end_marker_line(lines, from + 1)
            },
        }
    }
}

/// The lines that begin and end the result block that follows, from line `from` on.
pub open spec fn result_block(lines: Seq<Seq<char>>, from: int) -> Option<(int, int)> {
    let begin = result_line(lines, from);
    if 0 <= begin < lines.len() && begins_result(lines[begin]) {
        match end_marker_line(lines, begin + 1) {
            Some(end) => Some((begin, end)),
            None => None,
        }
    } else {
        None
    }
}

/// `line` without its indentation, of which at most `indent` spaces are taken away.
pub open spec fn unindented(line: Seq<char>, indent: nat) -> Seq<char> {
    let n = text::leading(line, ' ');
    line.skip(
        if n < indent {
            n as int
        } else {
            indent as int
        },
    )
}

/// The body of a fence that is indented by `indent` spaces, without that indentation.
pub open spec fn dedented(body: Seq<char>, indent: nat) -> Seq<char> {
    if indent == 0 {
        body
    } else {
        text::join(
            text::text_lines(body).map_values(|line: Seq<char>| unindented(line, indent)),
            seq!['\n'],
        )
    }
}

/// Where the destination is designated in the text after a block, from line `from` on.
pub open spec fn designated_file(s: Seq<char>, from: int) -> Option<Seq<char>> {
    let texts = lines::line_texts(s);
    let spans = lines::lines_of(s);
    let first = after_blanks(texts, from);
    let last = paragraph_end(texts, first) - 1;
    if has_paragraph(texts, from) {
        link::link_target(s.subrange(spans[first].start, spans[last].end))
    } else {
        None
    }
}

/// The cell that a shell block of `s` makes.
pub open spec fn cell_of(s: Seq<char>, b: Block) -> CellModel {
    let texts = lines::line_texts(s);
    let spans = lines::lines_of(s);
    let next = line_after(texts, b.close);
    let body_end = match b.close {
        Some(j) => spans[j].start,
        None => s.len() as int,
    };
    let fence_end = match b.close {
        Some(j) => spans[j].end,
        None => s.len() as int,
    };
    let in_text = designated_file(s, next);
    CellModel {
        lang: b.shell.lang,
        command: dedented(s.subrange(spans[b.open].end, body_end), b.fence.indent),
        out_file: if b.shell.out is Some {
            b.shell.out
        } else {
            in_text
        },
        out_file_in_text: b.shell.out is None && in_text is Some,
        fence_start: spans[b.open].start,
        fence_end,
        result_span: match result_block(texts, next) {
            Some((begin, end)) => Some((spans[begin].start, spans[end].end)),
            None => None,
        },
        insert_at: if has_paragraph(texts, next) {
            spans[paragraph_end(texts, after_blanks(texts, next)) - 1].end
        } else {
            fence_end
        },
    }
}

/// The cells of a document.
pub open spec fn cells_of(s: Seq<char>) -> Seq<CellModel> {
    shell_blocks(lines::line_texts(s), 0).map_values(|b: Block| cell_of(s, b))
}

/// A command cell of a Markdown document.
#[derive(Debug, Clone, PartialEq, Eq)]
pub struct Cell {
    /// Zero-based number of the cell, in the order of the document.
    pub index: usize,
    /// Language of the fence (`shell` and so on).
    pub lang: String,
    /// Body of the fence. Several lines are run together, in one shell invocation.
    pub command: String,
    /// File designated for the result, relative to the Markdown file.
    pub out_file: Option<String>,
    /// Whether the destination is written in the text, as a `Result:` paragraph.
    pub out_file_in_text: bool,
    /// Byte offset of the line of the opening fence.
    pub fence_start: usize,
    /// Byte offset after the line of the closing fence.
    pub fence_end: usize,
    /// Where the existing result block stands, from the start of the line of the begin
    /// marker to the end of the line of the end marker.
    pub result_span: Option<(usize, usize)>,
    /// Where a result block is inserted when there is none.
    pub insert_at: usize,
}

/// Whether a span given in bytes is the span of `s` given in characters.
pub open spec fn same_span(
    s: Seq<char>,
    bytes: Option<(usize, usize)>,
    chars: Option<(int, int)>,
) -> bool {
    match (bytes, chars) {
        (Some((a, b)), Some((i, j))) => a == text::byte_pos(s, i) && b == text::byte_pos(s, j),
        (None, None) => true,
        _ => false,
    }
}

impl Cell {
    /// Whether this is the cell of `s` that `model` describes.
    pub open spec fn describes(&self, s: Seq<char>, model: CellModel) -> bool {
        &&& self.lang@ == model.lang
        &&& self.command@ == model.command
        &&& text::opt_text(self.out_file) == model.out_file
        &&& self.out_file_in_text == model.out_file_in_text
        &&& self.fence_start == text::byte_pos(s, model.fence_start)
        &&& self.fence_end == text::byte_pos(s, model.fence_end)
        &&& same_span(s, self.result_span, model.result_span)
        &&& self.insert_at == text::byte_pos(s, model.insert_at)
    }

    /// One-based number of the cell, as it is shown.
    pub fn display_number(&self) -> (number: usize)
        requires
            self.index < usize::MAX,
        ensures
            number == self.index + 1,
    {
        self.index + 1
    }
}

/// A parsed Markdown document.
#[derive(Debug, Clone)]
pub struct Document {
    /// The text of the document.
    pub text: String,
    /// Its command cells.
    pub cells: Vec<Cell>,
}

impl Document {
    /// Whether the cells are those of the text.
    pub open spec fn wf(&self) -> bool {
        let models = cells_of(self.text@);
        &&& self.cells@.len() == models.len()
        &&& forall|i: int|
            0 <= i < self.cells@.len() ==> (#[trigger] self.cells@[i]).index == i
                && self.cells@[i].describes(self.text@, models[i])
    }
}

pub proof fn lemma_after_blanks(lines: Seq<Seq<char>>, from: int)
    requires
        0 <= from <= lines.len(),
    ensures
        from <= after_blanks(lines, from) <= lines.len(),
        forall|i: int| from <= i < after_blanks(lines, from) ==> is_blank(#[trigger] lines[i]),
        after_blanks(lines, from) < lines.len() ==> !is_blank(lines[after_blanks(lines, from)]),
    decreases lines.len() - from,
{
    if from < lines.len() && is_blank(lines[from]) {
        lemma_after_blanks(lines, from + 1);
    }
}

pub proof fn lemma_paragraph_end(lines: Seq<Seq<char>>, from: int)
    requires
        0 <= from <= lines.len(),
    ensures
        from <= paragraph_end(lines, from) <= lines.len(),
        forall|i: int|
            from <= i < paragraph_end(lines, from) ==> !is_blank(#[trigger] lines[i])
                && !begins_result(lines[i]),
        paragraph_end(lines, from) < lines.len() ==> is_blank(lines[paragraph_end(lines, from)])
            || begins_result(lines[paragraph_end(lines, from)]),
        from < lines.len() && !is_blank(lines[from]) && designates(lines[from]) ==> from
            < paragraph_end(lines, from),
    decreases lines.len() - from,
{
    if from < lines.len() && !is_blank(lines[from]) {
        if begins_result(lines[from]) {
            lemma_begin_line(lines[from]);
        } else {
            lemma_paragraph_end(lines, from + 1);
        }
    }
}

/// A line that begins a result block is not blank, designates nothing and opens no fence.
pub proof fn lemma_begin_line(line: Seq<char>)
    requires
        begins_result(line),
    ensures
        !is_blank(line),
        !designates(line),
        fence::opening(line) is None,
{
    reveal_strlit("<!-- runandlog:begin");
    reveal_strlit("result:");
    reveal_strlit("結果:");
    let start = text::trim_start(line);
    let prefix = BEGIN_MARKER_PREFIX@;
    assert(start.take(prefix.len() as int)[0] == prefix[0]);
    assert(start[0] == '<');
    text::lemma_leading_space(line);
    text::lemma_trailing_space(start);
    assert(!text::is_white_space(start[0]));
    // Trimming keeps the first character.
    assert(!is_blank(line)) by {
        if text::trailing_space(start) == start.len() {
            assert(text::is_white_space(start[0]));
        }
    }
    assert(!designates(line)) by {
        assert(leading_marks(start) == 0);
        let head = start.skip(0);
        assert(head =~= start);
        let low = info::lower(head);
        assert(low[0] == '<');
        if text::begins_with(low, "result:"@) {
            assert(low.take("result:"@.len() as int)[0] == 'r');
        }
        if text::begins_with(head, "結果:"@) {
            assert(head.take("結果:"@.len() as int)[0] == '結');
        }
    }
    assert(fence::opening(line) is None) by {
        text::lemma_leading(line, ' ');
        let n = text::leading(line, ' ') as int;
        let skipped = text::leading_space(line) as int;
        assert(line[skipped] == start[0]);
        let rest = line.skip(n);
        if rest.len() > 0 && (rest[0] == '`' || rest[0] == '~') {
            assert(line[n] == rest[0]);
            if n < skipped {
                assert(text::is_white_space(line[n]));
            } else if skipped < n {
                assert(line[skipped] == ' ');
            }
            assert(false);
        }
    }
}

pub proof fn lemma_end_marker_line(lines: Seq<Seq<char>>, from: int)
    requires
        0 <= from <= lines.len(),
    ensures
        end_marker_line(lines, from) matches Some(j) ==> from <= j < lines.len() && ends_result(
            lines[j],
        ),
    decreases lines.len() - from,
{
    if from < lines.len() {
        match fence::opening(lines[from]) {
            Some(f) => {
                lemma_closing_line(lines, from + 1, f);
                lemma_end_marker_line(
                    lines,
                    line_after(lines, fence::closing_line(lines, from + 1, f)),
                );
            },
            None => {
                if !ends_result(lines[from]) {
                    lemma_end_marker_line(lines, from + 1);
                }
            },
        }
    }
}

/// Finds the line that closes a fence.
pub(crate) fn find_closing_line(
    lines: &Vec<Line<'_>>,
    from: usize,
    f: &fence::Fence<'_>,
    Ghost(s): Ghost<Seq<char>>,
) -> (close: Option<usize>)
    requires
        lines::are_lines_of(lines@, s),
        from <= lines@.len(),
    ensures
        match close {
            Some(j) => fence::closing_line(lines::line_texts(s), from as int, f@) == Some(j as int)
                && from <= j < lines@.len(),
            None => fence::closing_line(lines::line_texts(s), from as int, f@) is None,
        },
{
    let mut j: usize = from;
    while j < lines.len()
        invariant
            lines::are_lines_of(lines@, s),
            from <= j <= lines@.len(),
            fence::closing_line(lines::line_texts(s), j as int, f@) == fence::closing_line(
                lines::line_texts(s),
                from as int,
                f@,
            ),
        decreases lines@.len() - j,
    {
        assert(lines@[j as int].describes(s, lines::lines_of(s)[j as int]));
        assert(lines@[j as int].text@ == lines::line_texts(s)[j as int]);
        if fence::closes_fence(lines[j].text, f) {
            return Some(j);
        }
        j += 1;
    }
    None
}

/// Skips blank lines.
fn skip_blank(lines: &Vec<Line<'_>>, from: usize, Ghost(s): Ghost<Seq<char>>) -> (i: usize)
    requires
        lines::are_lines_of(lines@, s),
        from <= lines@.len(),
    ensures
        i == after_blanks(lines::line_texts(s), from as int),
        from <= i <= lines@.len(),
{
    let mut i: usize = from;
    while i < lines.len()
        invariant
            lines::are_lines_of(lines@, s),
            from <= i <= lines@.len(),
            after_blanks(lines::line_texts(s), i as int) == after_blanks(
                lines::line_texts(s),
                from as int,
            ),
        decreases lines@.len() - i,
    {
        assert(lines@[i as int].describes(s, lines::lines_of(s)[i as int]));
        assert(lines@[i as int].text@ == lines::line_texts(s)[i as int]);
        if text::trimmed(lines[i].text).len() != 0 {
            return i;
        }
        i += 1;
    }
    i
}

/// Finds the end of a paragraph.
fn skip_paragraph(lines: &Vec<Line<'_>>, from: usize, Ghost(s): Ghost<Seq<char>>) -> (i: usize)
    requires
        lines::are_lines_of(lines@, s),
        from <= lines@.len(),
    ensures
        i == paragraph_end(lines::line_texts(s), from as int),
        from <= i <= lines@.len(),
{
    let mut i: usize = from;
    while i < lines.len()
        invariant
            lines::are_lines_of(lines@, s),
            from <= i <= lines@.len(),
            paragraph_end(lines::line_texts(s), i as int) == paragraph_end(
                lines::line_texts(s),
                from as int,
            ),
        decreases lines@.len() - i,
    {
        assert(lines@[i as int].describes(s, lines::lines_of(s)[i as int]));
        assert(lines@[i as int].text@ == lines::line_texts(s)[i as int]);
        if text::trimmed(lines[i].text).len() == 0 || text::has_prefix(
            text::without_leading_space(lines[i].text),
            BEGIN_MARKER_PREFIX,
        ) {
            return i;
        }
        i += 1;
    }
    i
}

/// Whether a line begins a paragraph that designates where a result goes.
fn is_designation_head(line: &[char]) -> (head: bool)
    ensures
        head == designates(line@),
{
    let start = text::without_leading_space(line);
    let mut n: usize = 0;
    assert(start@.skip(0) =~= start@);
    while n < start.len() && (start[n] == '*' || start[n] == '_' || start[n] == ' ')
        invariant
            n <= start@.len(),
            n + leading_marks(start@.skip(n as int)) == leading_marks(start@),
        decreases start@.len() - n,
    {
        assert(start@.skip(n as int).drop_first() =~= start@.skip(n + 1));
        n += 1;
    }
    let head = text::from_position(start, n);
    let low = info::lowered(head);
    text::has_prefix(low.as_slice(), "result:") || text::has_prefix(head, "結果:")
}

/// Finds the line that ends a result block.
///
/// A command can print a line that looks like the end marker. Output is always written
/// inside a code fence, so skipping fences keeps the two apart.
fn find_end_marker(lines: &Vec<Line<'_>>, from: usize, Ghost(s): Ghost<Seq<char>>) -> (end: Option<
    usize,
>)
    requires
        lines::are_lines_of(lines@, s),
        from <= lines@.len(),
    ensures
        match end {
            Some(j) => end_marker_line(lines::line_texts(s), from as int) == Some(j as int) && from
                <= j < lines@.len(),
            None => end_marker_line(lines::line_texts(s), from as int) is None,
        },
{
    let ghost texts = lines::line_texts(s);
    let mut i: usize = from;
    while i < lines.len()
        invariant
            lines::are_lines_of(lines@, s),
            texts == lines::line_texts(s),
            from <= i <= lines@.len(),
            end_marker_line(texts, i as int) == end_marker_line(texts, from as int),
        decreases lines@.len() - i,
    {
        assert(lines@[i as int].describes(s, lines::lines_of(s)[i as int]));
        assert(lines@[i as int].text@ == texts[i as int]);
        match fence::open_fence(lines[i].text) {
            Some(f) => {
                match find_closing_line(lines, i + 1, &f, Ghost(s)) {
                    Some(j) => {
                        i = j + 1;
                    },
                    None => {
                        i = lines.len();
                    },
                }
            },
            None => {
                if text::is_text(text::trimmed(lines[i].text), END_MARKER) {
                    return Some(i);
                }
                i += 1;
            },
        }
    }
    None
}

/// Takes away the indentation of a fence from its body.
fn dedent(body: &[char], indent: usize) -> (command: String)
    ensures
        command@ == dedented(body@, indent as nat),
{
    if indent == 0 {
        return text::to_text(body);
    }
    let parts = text::output_lines(body);
    let ghost cut = |line: Seq<char>| unindented(line, indent as nat);
    let ghost texts = text::text_lines(body@).map_values(cut);
    let mut command = String::new();
    assert(texts.take(0) =~= Seq::empty());
    for i in 0..parts.len()
        invariant
            text::slice_texts(parts@) == text::text_lines(body@),
            cut == (|line: Seq<char>| unindented(line, indent as nat)),
            texts == text::text_lines(body@).map_values(cut),
            command@ == text::join(texts.take(i as int), seq!['\n']),
    {
        let line = parts[i];
        assert(text::slice_texts(parts@)[i as int] == line@);
        let n = text::count_leading(line, ' ');
        let strip: usize = if n < indent {
            n
        } else {
            indent
        };
        let rest = text::from_position(line, strip);
        assert(texts[i as int] == rest@);
        assert(texts.take(i + 1).drop_last() =~= texts.take(i as int));
        if i > 0 {
            command.push('\n');
        }
        let piece = text::to_text(rest);
        let ghost before = command@;
        command.append(piece.as_str());
        assert(command@ =~= text::join(texts.take(i + 1), seq!['\n'])) by {
            assert(texts.take(i + 1).last() == rest@);
            if i > 0 {
                assert(before =~= text::join(texts.take(i as int), seq!['\n']) + seq!['\n']);
            }
        }
    }
    assert(texts.take(texts.len() as int) =~= texts);
    command
}

/// What follows a block: where its result goes, and where the existing result stands.
struct Trailer {
    designated_file: Option<String>,
    result_span: Option<(usize, usize)>,
    insert_at: Option<usize>,
}

/// Reads what follows a block.
fn scan_trailer(s: &[char], lines: &Vec<Line<'_>>, from: usize) -> (trailer: Trailer)
    requires
        lines::are_lines_of(lines@, s@),
        from <= lines@.len(),
    ensures
        text::opt_text(trailer.designated_file) == designated_file(s@, from as int),
        ({
            let texts = lines::line_texts(s@);
            let spans = lines::lines_of(s@);
            &&& same_span(
                s@,
                trailer.result_span,
                match result_block(texts, from as int) {
                    Some((begin, end)) => Some((spans[begin].start, spans[end].end)),
                    None => None,
                },
            )
            &&& trailer.insert_at is Some <==> has_paragraph(texts, from as int)
            &&& trailer.insert_at matches Some(at) ==> at == text::byte_pos(
                s@,
                spans[paragraph_end(texts, after_blanks(texts, from as int)) - 1].end,
            )
        }),
{
    let ghost texts = lines::line_texts(s@);
    let ghost spans = lines::lines_of(s@);
    let mut designated: Option<String> = None;
    let mut insert_at: Option<usize> = None;
    let mut result_span: Option<(usize, usize)> = None;
    let first = skip_blank(lines, from, Ghost(s@));
    let mut begin: usize = first;
    if first < lines.len() {
        assert(lines@[first as int].describes(s@, spans[first as int]));
        assert(lines@[first as int].text@ == texts[first as int]);
        if is_designation_head(lines[first].text) {
            let end = skip_paragraph(lines, first, Ghost(s@));
            proof {
                lemma_after_blanks(texts, from as int);
                lemma_paragraph_end(texts, first as int);
                assert(end > first);
                lines::lemma_lines_from(s@, 0);
                assert(lines@[end - 1].describes(s@, spans[end - 1]));
            }
            let paragraph = slice_subrange(s, lines[first].start, lines[end - 1].end);
            designated = link::extract_link_target(paragraph);
            insert_at = Some(lines[end - 1].byte_end);
            begin = skip_blank(lines, end, Ghost(s@));
        }
    }
    if begin < lines.len() {
        assert(lines@[begin as int].describes(s@, spans[begin as int]));
        assert(lines@[begin as int].text@ == texts[begin as int]);
        if text::has_prefix(
            text::without_leading_space(lines[begin].text),
            BEGIN_MARKER_PREFIX,
        ) {
            match find_end_marker(lines, begin + 1, Ghost(s@)) {
                Some(end) => {
                    assert(lines@[end as int].describes(s@, spans[end as int]));
                    result_span = Some((lines[begin].byte_start, lines[end].byte_end));
                },
                None => {},
            }
        }
    }
    Trailer { designated_file: designated, result_span, insert_at }
}

/// Reads the cell of a shell block.
fn read_cell(
    s: &[char],
    total: usize,
    lines: &Vec<Line<'_>>,
    index: usize,
    open: usize,
    close: Option<usize>,
    indent: usize,
    shell: info::ShellInfo,
    Ghost(b): Ghost<Block>,
) -> (cell: Cell)
    requires
        lines::are_lines_of(lines@, s@),
        total == text::byte_len(s@),
        open < lines@.len(),
        close matches Some(j) ==> open < j < lines@.len(),
        b.open == open,
        b.close == (match close {
            Some(j) => Some(j as int),
            None => None,
        }),
        b.fence.indent == indent,
        b.shell == shell@,
    ensures
        cell.index == index,
        cell.describes(s@, cell_of(s@, b)),
{
    let ghost spans = lines::lines_of(s@);
    let mut next: usize = lines.len();
    let mut body_end: usize = s.len();
    let mut block_end: usize = total;
    proof {
        lines::lemma_lines_from(s@, 0);
        text::lemma_byte_pos_ends(s@);
    }
    assert(lines@[open as int].describes(s@, spans[open as int]));
    match close {
        Some(j) => {
            assert(lines@[j as int].describes(s@, spans[j as int]));
            next = j + 1;
            body_end = lines[j].start;
            block_end = lines[j].byte_end;
        },
        None => {},
    }
    let body = slice_subrange(s, lines[open].end, body_end);
    let trailer = scan_trailer(s, lines, next);
    let out_file_in_text = shell.out.is_none() && trailer.designated_file.is_some();
    let insert_at: usize = match trailer.insert_at {
        Some(at) => at,
        None => block_end,
    };
    let out_file = match shell.out {
        Some(out) => Some(out),
        None => trailer.designated_file,
    };
    Cell {
        index,
        lang: shell.lang,
        command: dedent(body, indent),
        out_file,
        out_file_in_text,
        fence_start: lines[open].byte_start,
        fence_end: block_end,
        result_span: trailer.result_span,
        insert_at,
    }
}

impl Document {
    /// Parses a Markdown document.
    pub fn parse(text: &str) -> (doc: Document)
        ensures
            doc.text@ == text@,
            doc.wf(),
    {
        let chars = text::to_chars(text);
        let s = chars.as_slice();
        let total = text.as_bytes().len();
        let lines = lines::split_lines(s);
        let ghost texts = lines::line_texts(s@);
        let ghost blocks = shell_blocks(texts, 0);
        let mut cells: Vec<Cell> = Vec::new();
        let mut i: usize = 0;
        assert(blocks =~= blocks.take(0) + shell_blocks(texts, 0));
        while i < lines.len()
            invariant
                s@ == text@,
                total == text::byte_len(s@),
                texts == lines::line_texts(s@),
                blocks == shell_blocks(texts, 0),
                lines::are_lines_of(lines@, s@),
                i <= lines@.len(),
                cells@.len() <= blocks.len(),
                blocks == blocks.take(cells@.len() as int) + shell_blocks(texts, i as int),
                forall|k: int|
                    0 <= k < cells@.len() ==> (#[trigger] cells@[k]).index == k
                        && cells@[k].describes(s@, cell_of(s@, blocks[k])),
            decreases lines@.len() - i,
        {
            assert(lines@[i as int].describes(s@, lines::lines_of(s@)[i as int]));
            assert(lines@[i as int].text@ == texts[i as int]);
            match fence::open_fence(lines[i].text) {
                None => {
                    i += 1;
                },
                Some(f) => {
                    let close = find_closing_line(&lines, i + 1, &f, Ghost(s@));
                    let next: usize = match close {
                        Some(j) => j + 1,
                        None => lines.len(),
                    };
                    match info::shell_fence_info(f.info) {
                        None => {},
                        Some(shell) => {
                            let ghost done = cells@.len() as int;
                            let ghost b = shell_blocks(texts, i as int)[0];
                            proof {
                                assert(blocks[done] == b);
                                assert(blocks.take(done + 1) =~= blocks.take(done).push(b));
                                assert(blocks =~= blocks.take(done + 1) + shell_blocks(
                                    texts,
                                    next as int,
                                ));
                            }
                            let cell = read_cell(
                                s,
                                total,
                                &lines,
                                cells.len(),
                                i,
                                close,
                                f.indent,
                                shell,
                                Ghost(b),
                            );
                            cells.push(cell);
                        },
                    }
                    i = next;
                },
            }
        }
        assert(shell_blocks(texts, i as int) =~= Seq::empty());
        Document { text: text.to_owned(), cells }
    }
}

/// A line loses spaces at its start only, at most as many as its fence is indented by, and fewer
/// only if it has no more.
pub proof fn law_indentation_is_taken_away(line: Seq<char>, indent: nat)
    ensures
        exists|n: nat|
            n <= indent && n <= line.len() && #[trigger] line.skip(n as int) == unindented(
                line,
                indent,
            ) && (forall|i: int| 0 <= i < n ==> line[i] == ' ') && (n < indent ==> n == line.len()
                || line[n as int] != ' '),
{
    text::lemma_leading(line, ' ');
    let spaces = text::leading(line, ' ');
    let n = if spaces < indent {
        spaces
    } else {
        indent
    };
    assert(line.skip(n as int) == unindented(line, indent));
}

/// The command of an indented fence has the lines of its body, each of them without the
/// indentation of the fence: with a line feed after each line, they are the command and a line
/// feed. A fence that is not indented leaves its body as it is.
pub proof fn law_command_keeps_the_lines(body: Seq<char>, indent: nat)
    ensures
        indent == 0 ==> dedented(body, indent) == body,
        indent > 0 && body.len() > 0 ==> dedented(body, indent) + seq!['\n'] == text::ended(
            text::text_lines(body).map_values(|line: Seq<char>| unindented(line, indent)),
        ),
        indent > 0 && body.len() == 0 ==> dedented(body, indent).len() == 0,
{
    text::law_lines_make_up_the_text(body);
    if indent > 0 && body.len() > 0 {
        text::law_joined_lines(
            text::text_lines(body).map_values(|line: Seq<char>| unindented(line, indent)),
        );
    }
}

/// Line by line, the command of an indented fence is the body of the fence without at most so many
/// leading spaces. That is so wherever the last line of the command is not empty and no line ends
/// with a carriage return of its own.
pub proof fn law_command_has_the_lines_of_its_fence(body: Seq<char>, indent: nat)
    requires
        indent > 0,
        text::text_lines(body).len() > 0,
        unindented(text::text_lines(body).last(), indent).len() > 0,
        forall|i: int|
            0 <= i < text::text_lines(body).len() ==> (#[trigger] text::text_lines(body)[i]).len()
                == 0 || text::text_lines(body)[i].last() != '\r',
    ensures
        text::text_lines(dedented(body, indent)).len() == text::text_lines(body).len(),
        forall|i: int|
            0 <= i < text::text_lines(body).len() ==> #[trigger] text::text_lines(
                dedented(body, indent),
            )[i] == unindented(text::text_lines(body)[i], indent),
{
    let lines = text::text_lines(body);
    let cut = lines.map_values(|line: Seq<char>| unindented(line, indent));
    text::law_lines_make_up_the_text(body);
    assert forall|i: int| 0 <= i < cut.len() implies !(#[trigger] cut[i]).contains('\n') && (
    cut[i].len() > 0 ==> cut[i].last() != '\r') by {
        assert(cut[i] == unindented(lines[i], indent));
        text::lemma_leading(lines[i], ' ');
        assert(!lines[i].contains('\n'));
        let n = lines[i].len() - cut[i].len();
        assert(cut[i] =~= lines[i].skip(n));
        if cut[i].contains('\n') {
            let j = choose|j: int| 0 <= j < cut[i].len() && cut[i][j] == '\n';
            assert(lines[i][n + j] == '\n');
        }
        if cut[i].len() > 0 {
            assert(cut[i].last() == lines[i].last());
        }
    }
    assert(cut.last() == unindented(lines.last(), indent));
    text::law_lines_read_back(cut);
}

/// A line designates where a result goes exactly if it begins with `Result:`, in letters of either
/// case, or with the same in Japanese, after white space and marks of emphasis.
pub proof fn law_result_line_designates(space: Seq<char>, marks: Seq<char>, rest: Seq<char>)
    requires
        forall|i: int| 0 <= i < space.len() ==> text::is_white_space(#[trigger] space[i]),
        forall|i: int|
            0 <= i < marks.len() ==> (#[trigger] marks[i] == '*' || marks[i] == '_' || marks[i]
                == ' '),
        marks.len() > 0 ==> marks[0] != ' ',
        rest.len() > 0,
        !text::is_white_space(rest[0]),
        rest[0] != '*',
        rest[0] != '_',
    ensures
        designates(space + marks + rest) <==> (text::begins_with(info::lower(rest), "result:"@)
            || text::begins_with(rest, "結果:"@)),
{
    let line = space + marks + rest;
    let start = marks + rest;
    let n = space.len() as int;
    assert(line =~= space + start);
    assert(start[0] == (if marks.len() > 0 {
        marks[0]
    } else {
        rest[0]
    }));
    assert forall|i: int| 0 <= i < n implies text::is_white_space(line[i]) by {
        assert(line[i] == space[i]);
    }
    assert(line[n] == start[0]);
    text::lemma_leading_space_is(line, n);
    assert(text::trim_start(line) =~= start);
    lemma_leading_marks_are(marks, rest);
    assert(start.skip(marks.len() as int) =~= rest);
}

proof fn lemma_leading_marks_are(marks: Seq<char>, rest: Seq<char>)
    requires
        forall|i: int|
            0 <= i < marks.len() ==> (#[trigger] marks[i] == '*' || marks[i] == '_' || marks[i]
                == ' '),
        rest.len() > 0,
        rest[0] != '*',
        rest[0] != '_',
        rest[0] != ' ',
    ensures
        leading_marks(marks + rest) == marks.len(),
    decreases marks.len(),
{
    let s = marks + rest;
    if marks.len() == 0 {
        assert(s =~= rest);
    } else {
        let next = marks.drop_first();
        assert(s.drop_first() =~= next + rest);
        assert(s[0] == marks[0]);
        assert forall|i: int| 0 <= i < next.len() implies (#[trigger] next[i] == '*' || next[i]
            == '_' || next[i] == ' ') by {
            assert(next[i] == marks[i + 1]);
        }
        lemma_leading_marks_are(next, rest);
    }
}

/// A result block begins with a line that begins with the begin marker, and ends with a line that
/// holds the end marker alone; white space around them does not count.
pub proof fn law_markers_are_recognised(line: Seq<char>)
    ensures
        begins_result(line) <==> text::begins_with(
            text::trim_start(line),
            "<!-- runandlog:begin"@,
        ),
        ends_result(line) <==> text::trim(line) == "<!-- runandlog:end -->"@,
        is_blank(line) <==> forall|i: int| 0 <= i < line.len() ==> text::is_white_space(
            #[trigger] line[i],
        ),
{
    let (a, b) = text::law_trimmed(line);
    let t = text::trim(line);
    if t.len() == 0 {
        assert(line =~= a + b);
        assert forall|i: int| 0 <= i < line.len() implies text::is_white_space(
            #[trigger] line[i],
        ) by {
            if i < a.len() {
                assert(line[i] == a[i]);
            } else {
                assert(line[i] == b[i - a.len()]);
            }
        }
    } else {
        assert(line[a.len() as int] == t[0]);
    }
}

/// The result of a cell is the block that follows it: it begins with a begin marker, it ends with
/// the first end marker that stands outside of code fences, and nothing but blank lines and the
/// paragraph that designates its destination stands before it.
pub proof fn law_result_follows_its_cell(lines: Seq<Seq<char>>, from: int)
    requires
        0 <= from <= lines.len(),
        result_block(lines, from) is Some,
    ensures
        ({
            let (begin, end) = result_block(lines, from)->0;
            &&& from <= begin < end < lines.len()
            &&& begins_result(lines[begin])
            &&& ends_result(lines[end])
            &&& forall|i: int|
                begin < i < end && ends_result(#[trigger] lines[i]) ==> in_fence(lines, begin + 1, i)
            &&& (forall|i: int| from <= i < begin ==> is_blank(#[trigger] lines[i])) || exists|
                first: int,
                last: int,
            |
                from <= first < last <= begin && #[trigger] is_designating_paragraph(
                    lines,
                    first,
                    last,
                ) && (forall|i: int| from <= i < first ==> is_blank(#[trigger] lines[i])) && (
                forall|i: int| last <= i < begin ==> is_blank(#[trigger] lines[i]))
        }),
{
    let (begin, end) = result_block(lines, from)->0;
    let first = after_blanks(lines, from);
    lemma_after_blanks(lines, from);
    lemma_end_marker_line(lines, begin + 1);
    lemma_end_marker_is_first(lines, begin + 1);
    if has_paragraph(lines, from) {
        let last = paragraph_end(lines, first);
        lemma_paragraph_end(lines, first);
        lemma_after_blanks(lines, last);
        assert(is_designating_paragraph(lines, first, last));
    }
}

/// Whether lines `first` to `last` are a paragraph that designates a destination.
pub open spec fn is_designating_paragraph(lines: Seq<Seq<char>>, first: int, last: int) -> bool {
    designates(lines[first]) && forall|i: int|
        first <= i < last ==> !is_blank(#[trigger] lines[i]) && !begins_result(lines[i])
}

/// Whether line `i` stands in a code fence that is opened at or after line `from`.
pub open spec fn in_fence(lines: Seq<Seq<char>>, from: int, i: int) -> bool {
    exists|open: int|
        from <= open <= i && (#[trigger] fence::opening(lines[open])) is Some && line_after(
            lines,
            fence::closing_line(lines, open + 1, fence::opening(lines[open])->0),
        ) > i
}

proof fn lemma_end_marker_is_first(lines: Seq<Seq<char>>, from: int)
    requires
        0 <= from <= lines.len(),
    ensures
        end_marker_line(lines, from) matches Some(end) ==> forall|i: int|
            from <= i < end && ends_result(#[trigger] lines[i]) ==> in_fence(lines, from, i),
    decreases lines.len() - from,
{
    if from < lines.len() && end_marker_line(lines, from) is Some {
        let end = end_marker_line(lines, from)->0;
        match fence::opening(lines[from]) {
            Some(f) => {
                let next = line_after(lines, fence::closing_line(lines, from + 1, f));
                lemma_closing_line(lines, from + 1, f);
                lemma_end_marker_is_first(lines, next);
                assert forall|i: int| from <= i < end && ends_result(
                    #[trigger] lines[i],
                ) implies in_fence(lines, from, i) by {
                    if i < next {
                        assert(fence::opening(lines[from]) is Some);
                    } else {
                        assert(in_fence(lines, next, i));
                    }
                }
            },
            None => {
                if !ends_result(lines[from]) {
                    lemma_end_marker_is_first(lines, from + 1);
                    assert forall|i: int| from <= i < end && ends_result(
                        #[trigger] lines[i],
                    ) implies in_fence(lines, from, i) by {
                        assert(in_fence(lines, from + 1, i));
                    }
                }
            },
        }
    }
}

/// The cells of a document are those of its text, all of them and in order: each has its number,
/// and its language, command, destination and positions are those that the text gives it.
pub proof fn law_cells_are_those_of_the_text(doc: Document, i: int)
    requires
        doc.wf(),
        0 <= i < cells_of(doc.text@).len(),
    ensures
        doc.cells@.len() == cells_of(doc.text@).len(),
        ({
            let cell = doc.cells@[i];
            let model = cells_of(doc.text@)[i];
            &&& cell.index == i
            &&& cell.lang@ == model.lang
            &&& cell.command@ == model.command
            &&& cell.out_file is Some <==> model.out_file is Some
            &&& cell.out_file matches Some(file) ==> model.out_file == Some(file@)
            &&& cell.out_file_in_text == model.out_file_in_text
            &&& cell.fence_start == text::byte_len(doc.text@.take(model.fence_start))
            &&& cell.fence_end == text::byte_len(doc.text@.take(model.fence_end))
            &&& cell.insert_at == text::byte_len(doc.text@.take(model.insert_at))
            &&& cell.result_span is Some <==> model.result_span is Some
            &&& match (cell.result_span, model.result_span) {
                (Some((start, end)), Some((from, to))) => start == text::byte_len(
                    doc.text@.take(from),
                ) && end == text::byte_len(doc.text@.take(to)),
                _ => true,
            }
        }),
{
    assert(doc.cells@[i].describes(doc.text@, cells_of(doc.text@)[i]));
}

} // verus!
