//! Formats the outcome of a run into the result block that is written back to the Markdown.

use vstd::prelude::*;
use vstd::utf8::*;

use crate::exec::ExecOutcome;
use crate::link;
use crate::number;
use crate::parse;
use crate::parse::Cell;
use crate::paths;
use crate::paths::FsPath;
use crate::text;
use crate::time;

verus! {

/// What is needed to format a result.
#[derive(Debug, Clone)]
pub struct RenderContext {
    /// Directory of the Markdown file. Separate files are resolved against it.
    pub md_dir: FsPath,
    /// Name of the Markdown file without its extension.
    pub md_stem: String,
    /// Output with more lines than this goes to a separate file.
    pub max_inline_lines: usize,
}

/// Output that is written to a separate file.
#[derive(Debug, Clone, PartialEq, Eq)]
pub struct Sidecar {
    /// Where it is written.
    pub path: FsPath,
    /// Link to it in the Markdown, relative to the directory of the Markdown file.
    pub link: String,
    /// What is written.
    pub contents: String,
}

/// A formatted result.
#[derive(Debug, Clone, PartialEq, Eq)]
pub struct ResultRender {
    /// The result block, from the begin marker to the line break after the end marker.
    pub markdown: String,
    /// What goes to a separate file.
    pub sidecar: Option<Sidecar>,
}

/// Output that is written to a separate file.
pub struct SidecarModel {
    pub path: Seq<u8>,
    pub link: Seq<char>,
    pub contents: Seq<char>,
}

/// The model of output that is written to a separate file.
pub open spec fn sidecar_model(sidecar: Option<Sidecar>) -> Option<SidecarModel> {
    match sidecar {
        Some(s) => Some(
            SidecarModel { path: s.path@, link: s.link@, contents: s.contents@ },
        ),
        None => None,
    }
}

/// Output without the line breaks at its end.
pub open spec fn normalized(output: Seq<char>) -> Seq<char> {
    text::trim_end_char(output, '\n')
}

/// The designated destination of a result, when it may be used.
pub open spec fn designated(out_file: Option<Seq<char>>, allowed: bool) -> Option<Seq<char>> {
    match out_file {
        Some(link) => if allowed && paths::is_inside(link) {
            Some(link)
        } else {
            None
        },
        None => None,
    }
}

/// The name of the separate file for the result of a cell that designates none.
pub open spec fn numbered_file(stem: Seq<char>, number: nat) -> Seq<char> {
    stem + "-result-"@ + number::decimal(number) + ".txt"@
}

/// The separate file that a result goes to: the designated one, whatever the length of the
/// output, or a numbered one for long output.
pub open spec fn separate_file(
    designated: Option<Seq<char>>,
    ctx: RenderContext,
    number: nat,
    lines: nat,
) -> Option<Seq<char>> {
    if designated is Some {
        designated
    } else if lines > ctx.max_inline_lines {
        Some(numbered_file(ctx.md_stem@, number))
    } else {
        None
    }
}

/// What is written to the separate file at `link`.
pub open spec fn sidecar_at(link: Seq<char>, ctx: RenderContext, output: Seq<char>) -> SidecarModel {
    SidecarModel {
        path: paths::joined(ctx.md_dir@, encode_utf8(link)),
        link,
        contents: if output.len() == 0 {
            output
        } else {
            output.push('\n')
        },
    }
}

/// The line that sums up a run.
pub open spec fn summary(outcome: ExecOutcome, lines: nat, rejected: bool) -> Seq<char> {
    let said = "Ran result: "@ + time::moment_text(outcome.started_at@) + " ("@ + outcome.status()
        + ", "@ + time::elapsed_text(outcome.duration@) + "s, "@ + number::decimal(lines)
        + " lines)"@;
    let cut = if outcome.truncated {
        said + " Output exceeded the limit and was truncated."@
    } else {
        said
    };
    if rejected {
        cut
            + " The designated output file points outside the Markdown directory and was ignored."@
    } else {
        cut
    }
}

/// How many backticks a line begins with, after its leading spaces.
pub open spec fn backticks(line: Seq<char>) -> nat {
    text::leading(line.skip(text::leading(line, ' ') as int), '`')
}

/// The largest number of backticks that one of the lines begins with; two when none has more.
pub open spec fn most_backticks(lines: Seq<Seq<char>>) -> nat
    decreases lines.len(),
{
    if lines.len() == 0 {
        2
    } else {
        let rest = most_backticks(lines.drop_last());
        let last = backticks(lines.last());
        if last > rest {
            last
        } else {
            rest
        }
    }
}

/// The fence around output: one backtick more than any line of it begins with.
pub open spec fn fence_of(output: Seq<char>) -> Seq<char> {
    Seq::new(most_backticks(text::text_lines(output)) + 1, |i: int| '`')
}

/// Output inside a code fence.
pub open spec fn fenced_output(output: Seq<char>) -> Seq<char> {
    let fence = fence_of(output);
    fence + "text\n"@ + output + seq!['\n'] + fence
}

/// What stands below the summary of a result. A separate file that the text already links to is
/// not linked to again.
pub open spec fn body_of(
    file: Option<Seq<char>>,
    linked_in_text: bool,
    output: Seq<char>,
) -> Option<Seq<char>> {
    match file {
        Some(link) => if linked_in_text {
            None
        } else {
            Some(link::link_to(link))
        },
        None => if output.len() == 0 {
            Some("(no output)"@)
        } else {
            Some(fenced_output(output))
        },
    }
}

/// A result block.
pub open spec fn block_of(summary: Seq<char>, body: Option<Seq<char>>) -> Seq<char> {
    let head = parse::BEGIN_MARKER@ + seq!['\n'] + summary + seq!['\n'];
    let middle = match body {
        Some(b) => head + seq!['\n'] + b + seq!['\n'],
        None => head,
    };
    middle + parse::END_MARKER@ + seq!['\n']
}

/// Whether a cell designates a destination that is not used.
pub open spec fn is_rejected(cell: Cell, allowed: bool) -> bool {
    cell.out_file is Some && designated(text::opt_text(cell.out_file), allowed) is None
}

/// The separate file that the result of a run goes to.
pub open spec fn rendered_file(
    cell: Cell,
    outcome: ExecOutcome,
    ctx: RenderContext,
    allowed: bool,
) -> Option<Seq<char>> {
    separate_file(
        designated(text::opt_text(cell.out_file), allowed),
        ctx,
        (cell.index + 1) as nat,
        text::text_lines(normalized(outcome.output@)).len(),
    )
}

/// What the result of a run says: its summary, and the body below it.
pub open spec fn rendered_parts(
    cell: Cell,
    outcome: ExecOutcome,
    ctx: RenderContext,
    allowed: bool,
) -> (Seq<char>, Option<Seq<char>>) {
    let output = normalized(outcome.output@);
    let rejected = is_rejected(cell, allowed);
    let file = rendered_file(cell, outcome, ctx, allowed);
    (
        summary(outcome, text::text_lines(output).len(), rejected),
        body_of(file, cell.out_file_in_text && !rejected, output),
    )
}

/// The result block of a run.
pub open spec fn rendered_block(
    cell: Cell,
    outcome: ExecOutcome,
    ctx: RenderContext,
    allowed: bool,
) -> Seq<char> {
    let (summary, body) = rendered_parts(cell, outcome, ctx, allowed);
    block_of(summary, body)
}

/// What the result of a run writes to a separate file.
pub open spec fn rendered_sidecar(
    cell: Cell,
    outcome: ExecOutcome,
    ctx: RenderContext,
    allowed: bool,
) -> Option<SidecarModel> {
    match rendered_file(cell, outcome, ctx, allowed) {
        Some(link) => Some(sidecar_at(link, ctx, normalized(outcome.output@))),
        None => None,
    }
}

/// Output without the line breaks at its end. Spaces at its end are part of it.
pub fn normalize(output: &str) -> (text: String)
    ensures
        text@ == normalized(output@),
{
    let chars = text::to_chars(output);
    text::to_text(text::without_trailing(chars.as_slice(), '\n'))
}

/// The number of lines of output.
pub fn count_lines(output: &str) -> (count: usize)
    ensures
        count == text::text_lines(output@).len(),
{
    let lines = text::str_lines(output);
    assert(text::str_texts(lines@).len() == lines@.len());
    lines.len()
}

/// The separate file that a result goes to.
pub fn sidecar_for(
    designated: Option<&str>,
    ctx: &RenderContext,
    cell: &Cell,
    line_count: usize,
    output: &str,
) -> (sidecar: Option<Sidecar>)
    requires
        cell.index < usize::MAX,
    ensures
        ({
            let file = separate_file(
                match designated {
                    Some(d) => Some(d@),
                    None => None,
                },
                *ctx,
                (cell.index + 1) as nat,
                line_count as nat,
            );
            sidecar_model(sidecar) == (match file {
                Some(link) => Some(sidecar_at(link, *ctx, output@)),
                None => None,
            })
        }),
{
    let link = match designated {
        Some(path) => path.to_owned(),
        None => {
            if line_count <= ctx.max_inline_lines {
                return None;
            }
            let mut name = ctx.md_stem.as_str().to_owned();
            name.append("-result-");
            name.append(number::write_decimal(cell.display_number() as u64).as_str());
            name.append(".txt");
            name
        },
    };
    let path = ctx.md_dir.join(link.as_str());
    let mut contents = output.to_owned();
    if !output.is_empty() {
        contents.push('\n');
    }
    Some(Sidecar { path, link, contents })
}

/// The line that sums up a run.
pub fn summary_line(outcome: &ExecOutcome, line_count: usize, rejected_out_file: bool) -> (line:
    String)
    ensures
        line@ == summary(*outcome, line_count as nat, rejected_out_file),
        time::has_two_decimals(time::elapsed_text(outcome.duration@)),
{
    let mut line = "Ran result: ".to_owned();
    line.append(outcome.started_at.text().as_str());
    line.append(" (");
    line.append(outcome.status_text().as_str());
    line.append(", ");
    line.append(outcome.duration.text().as_str());
    line.append("s, ");
    line.append(number::write_decimal(line_count as u64).as_str());
    line.append(" lines)");
    if outcome.truncated {
        line.append(" Output exceeded the limit and was truncated.");
    }
    if rejected_out_file {
        line.append(
            " The designated output file points outside the Markdown directory and was ignored.",
        );
    }
    line
}

/// Puts output inside a code fence that no line of it can close.
pub fn fenced(output: &str) -> (block: String)
    ensures
        block@ == fenced_output(output@),
{
    let lines = text::str_lines(output);
    let ghost texts = text::text_lines(output@);
    let mut most: usize = 2;
    assert(texts.take(0) =~= Seq::empty());
    for i in 0..lines.len()
        invariant
            texts == text::str_texts(lines@),
            most == most_backticks(texts.take(i as int)),
    {
        let chars = text::to_chars(lines[i]);
        let indent = text::count_leading(chars.as_slice(), ' ');
        let run = text::count_leading(text::from_position(chars.as_slice(), indent), '`');
        assert(texts.take(i + 1).drop_last() =~= texts.take(i as int));
        assert(texts.take(i + 1).last() == lines@[i as int]@);
        if run > most {
            most = run;
        }
    }
    assert(texts.take(texts.len() as int) =~= texts);
    let mut fence = String::new();
    for i in 0..most
        invariant
            fence@ == Seq::new(i as nat, |j: int| '`'),
    {
        fence.push('`');
        assert(fence@ =~= Seq::new((i + 1) as nat, |j: int| '`'));
    }
    fence.push('`');
    assert(fence@ =~= fence_of(output@));
    let mut block = fence.as_str().to_owned();
    block.append("text\n");
    block.append(output);
    block.push('\n');
    block.append(fence.as_str());
    assert(block@ =~= fenced_output(output@));
    block
}

/// Builds the result block of a run.
///
/// A designated destination outside the directory of the Markdown file is dropped: the document
/// is no more trusted than its author. The caller says in `out_file_allowed` whether the
/// destination stays inside once links in the file system are followed.
pub fn render_result(
    cell: &Cell,
    outcome: &ExecOutcome,
    ctx: &RenderContext,
    out_file_allowed: bool,
) -> (rendered: ResultRender)
    requires
        cell.index < usize::MAX,
    ensures
        sidecar_model(rendered.sidecar) == rendered_sidecar(
            *cell,
            *outcome,
            *ctx,
            out_file_allowed,
        ),
        rendered.markdown@ == rendered_block(*cell, *outcome, *ctx, out_file_allowed),
        (cell.out_file matches Some(file) && out_file_allowed && paths::is_inside(file@)) ==> (
        rendered.sidecar matches Some(written) && cell.out_file matches Some(file) && written.link@
            == file@ && written.path@ == paths::joined(ctx.md_dir@, encode_utf8(file@))),
        text::text_lines(normalized(outcome.output@)).len() > ctx.max_inline_lines
            ==> rendered.sidecar is Some,
        rendered.sidecar is Some ==> text::text_lines(normalized(outcome.output@)).len()
            > ctx.max_inline_lines || (cell.out_file is Some && out_file_allowed),
        time::has_two_decimals(time::elapsed_text(outcome.duration@)),
        text::text_lines(normalized(outcome.output@)).len() <= usize::MAX,
{
    let output = normalize(outcome.output.as_str());
    let line_count = count_lines(output.as_str());
    let own: Option<&str> = match &cell.out_file {
        Some(file) => {
            if out_file_allowed && paths::is_inside_dir(file.as_str()) {
                Some(file.as_str())
            } else {
                None
            }
        },
        None => None,
    };
    let rejected = cell.out_file.is_some() && own.is_none();
    let summary = summary_line(outcome, line_count, rejected);
    let sidecar = sidecar_for(own, ctx, cell, line_count, output.as_str());
    let body: Option<String> = match &sidecar {
        Some(s) => {
            if cell.out_file_in_text && !rejected {
                None
            } else {
                Some(link::write_link(s.link.as_str()))
            }
        },
        None => {
            if output.as_str().is_empty() {
                Some("(no output)".to_owned())
            } else {
                Some(fenced(output.as_str()))
            }
        },
    };
    let mut markdown = parse::BEGIN_MARKER.to_owned();
    markdown.push('\n');
    markdown.append(summary.as_str());
    markdown.push('\n');
    match &body {
        Some(b) => {
            markdown.push('\n');
            markdown.append(b.as_str());
            markdown.push('\n');
        },
        None => {},
    }
    markdown.append(parse::END_MARKER);
    markdown.push('\n');
    assert(markdown@ =~= block_of(summary@, text::opt_text(body)));
    ResultRender { markdown, sidecar }
}

/// A destination that a cell designates is used whatever is printed, as long as it lies inside the
/// directory of the document and is allowed: all of the output goes to that file, and to no other.
pub proof fn law_designated_file_is_used(
    cell: Cell,
    outcome: ExecOutcome,
    ctx: RenderContext,
    file: String,
)
    requires
        cell.out_file == Some(file),
        paths::is_inside(file@),
    ensures
        ({
            let written = rendered_sidecar(cell, outcome, ctx, true);
            &&& written is Some
            &&& written->0.link == file@
            &&& written->0.path == paths::joined(ctx.md_dir@, encode_utf8(file@))
            &&& text::trim_end_char(written->0.contents, '\n') == text::trim_end_char(
                outcome.output@,
                '\n',
            )
            &&& !is_rejected(cell, true)
            &&& rendered_parts(cell, outcome, ctx, true).1 == (if cell.out_file_in_text {
                None
            } else {
                Some(link::link_to(file@))
            })
        }),
{
    lemma_contents(outcome.output@);
}

/// A destination that a cell designates is not used when it lies outside the directory of the
/// document, or is not allowed; that it was ignored is said then, and only then.
pub proof fn law_other_destinations_are_ignored(
    cell: Cell,
    outcome: ExecOutcome,
    ctx: RenderContext,
    allowed: bool,
)
    ensures
        is_rejected(cell, allowed) <==> (cell.out_file matches Some(file) && !(allowed
            && paths::is_inside(file@))),
        is_rejected(cell, allowed) || cell.out_file is None ==> (rendered_sidecar(
            cell,
            outcome,
            ctx,
            allowed,
        ) matches Some(written) ==> written.link == numbered_file(
            ctx.md_stem@,
            (cell.index + 1) as nat,
        )),
        rendered_parts(cell, outcome, ctx, allowed).0 == summary(
            outcome,
            text::text_lines(normalized(outcome.output@)).len(),
            cell.out_file matches Some(file) && !(allowed && paths::is_inside(file@)),
        ),
{
}

/// Output of more lines than fit is never in the document: it is in a separate file, and the
/// result block holds at most a link to that file.
pub proof fn law_long_output_is_not_inline(
    cell: Cell,
    outcome: ExecOutcome,
    ctx: RenderContext,
    allowed: bool,
)
    requires
        text::text_lines(normalized(outcome.output@)).len() > ctx.max_inline_lines,
    ensures
        ({
            let written = rendered_sidecar(cell, outcome, ctx, allowed);
            let body = rendered_parts(cell, outcome, ctx, allowed).1;
            &&& written is Some
            &&& text::trim_end_char(written->0.contents, '\n') == text::trim_end_char(
                outcome.output@,
                '\n',
            )
            &&& body is None || body == Some(link::link_to(written->0.link))
            &&& body is None <==> cell.out_file_in_text && !(cell.out_file matches Some(file) && !(
            allowed && paths::is_inside(file@)))
        }),
{
    lemma_contents(outcome.output@);
}

/// Output that fits, of a cell without a usable destination, is in the document and nowhere else:
/// between two fences of backticks, of which the first says `text`. Where nothing was printed, the
/// result says so.
pub proof fn law_short_output_is_inline(
    cell: Cell,
    outcome: ExecOutcome,
    ctx: RenderContext,
    allowed: bool,
)
    requires
        text::text_lines(normalized(outcome.output@)).len() <= ctx.max_inline_lines,
        cell.out_file matches Some(file) ==> !(allowed && paths::is_inside(file@)),
    ensures
        ({
            let output = normalized(outcome.output@);
            let body = rendered_parts(cell, outcome, ctx, allowed).1;
            &&& rendered_sidecar(cell, outcome, ctx, allowed) is None
            &&& output.len() == 0 ==> body == Some("(no output)"@)
            &&& output.len() > 0 ==> exists|n: nat|
                n >= 3 && body == Some(#[trigger] in_fence(n, output)) && forall|i: int|
                    0 <= i < text::text_lines(output).len() ==> backticks(
                        #[trigger] text::text_lines(output)[i],
                    ) < n
        }),
{
    let output = normalized(outcome.output@);
    let lines = text::text_lines(output);
    let n = (most_backticks(lines) + 1) as nat;
    lemma_most_backticks(lines);
    if output.len() > 0 {
        assert(fenced_output(output) =~= in_fence(n, output));
        assert forall|i: int| 0 <= i < lines.len() implies backticks(#[trigger] lines[i]) < n by {}
    }
}

/// Text between two fences of `n` backticks, each on a line of its own.
pub open spec fn in_fence(n: nat, output: Seq<char>) -> Seq<char> {
    Seq::new(n, |i: int| '`') + seq!['t', 'e', 'x', 't', '\n'] + output + seq!['\n'] + Seq::new(
        n,
        |i: int| '`',
    )
}

proof fn lemma_most_backticks(lines: Seq<Seq<char>>)
    ensures
        most_backticks(lines) >= 2,
        forall|i: int| 0 <= i < lines.len() ==> backticks(#[trigger] lines[i]) <= most_backticks(lines),
        "text\n"@ == seq!['t', 'e', 'x', 't', '\n'],
    decreases lines.len(),
{
    reveal_strlit("text\n");
    assert("text\n"@ =~= seq!['t', 'e', 'x', 't', '\n']);
    if lines.len() > 0 {
        let before = lines.drop_last();
        lemma_most_backticks(before);
        assert forall|i: int| 0 <= i < lines.len() implies backticks(#[trigger] lines[i])
            <= most_backticks(lines) by {
            if i < before.len() {
                assert(before[i] == lines[i]);
            }
        }
    }
}

/// What is written to a separate file is the output, but for line breaks at its end.
proof fn lemma_contents(output: Seq<char>)
    ensures
        ({
            let kept = normalized(output);
            let contents = if kept.len() == 0 {
                kept
            } else {
                kept.push('\n')
            };
            text::trim_end_char(contents, '\n') == text::trim_end_char(output, '\n')
        }),
{
    let kept = normalized(output);
    let n = text::law_end_taken_away(output, '\n');
    if kept.len() > 0 {
        text::lemma_trailing_is(kept.push('\n'), '\n', 1);
        assert(text::trim_end_char(kept.push('\n'), '\n') =~= kept);
    } else {
        text::lemma_trailing_is(kept, '\n', 0);
        assert(text::trim_end_char(kept, '\n') =~= kept);
    }
}

/// Output loses the line breaks at its end before it is counted and written, and nothing else.
pub proof fn law_output_keeps_its_lines(output: Seq<char>) -> (breaks: nat)
    ensures
        output == normalized(output) + Seq::new(breaks, |i: int| '\n'),
        normalized(output).len() > 0 ==> normalized(output).last() != '\n',
{
    text::law_end_taken_away(output, '\n')
}

/// The summary of a run begins with when it was started, how it ended, how long it took and how
/// many lines it printed. That output was cut is said after that, exactly if it was, and that the
/// destination was ignored at the end, exactly if it was.
pub proof fn law_summary_says_it_all(outcome: ExecOutcome, lines: nat)
    ensures
        ({
            let said = "Ran result: "@ + time::moment_text(outcome.started_at@) + " ("@
                + outcome.status() + ", "@ + time::elapsed_text(outcome.duration@) + "s, "@
                + number::decimal(lines) + " lines)"@;
            let cut = " Output exceeded the limit and was truncated."@;
            let ignored =
                " The designated output file points outside the Markdown directory and was ignored."@;
            &&& !outcome.truncated ==> summary(outcome, lines, false) == said
            &&& outcome.truncated ==> summary(outcome, lines, false) == said + cut
            &&& summary(outcome, lines, true) == summary(outcome, lines, false) + ignored
        }),
{
}

/// A result block begins with the begin marker and ends with the end marker, each on a line of its
/// own; the summary is the first line between them, and the body, if there is one, follows after a
/// blank line.
pub proof fn law_block_stands_between_its_markers(summary: Seq<char>, body: Seq<char>)
    ensures
        block_of(summary, None) == "<!-- runandlog:begin -->"@ + seq!['\n'] + summary + seq!['\n']
            + "<!-- runandlog:end -->"@ + seq!['\n'],
        block_of(summary, Some(body)) == "<!-- runandlog:begin -->"@ + seq!['\n'] + summary
            + seq!['\n', '\n'] + body + seq!['\n'] + "<!-- runandlog:end -->"@ + seq!['\n'],
{
    assert(block_of(summary, Some(body)) =~= "<!-- runandlog:begin -->"@ + seq!['\n'] + summary
        + seq!['\n', '\n'] + body + seq!['\n'] + "<!-- runandlog:end -->"@ + seq!['\n']);
}

/// The separate file of a cell that designates none is named after the document and the number of
/// the cell, as it is shown.
pub proof fn law_numbered_file_names_its_cell(
    cell: Cell,
    outcome: ExecOutcome,
    ctx: RenderContext,
    allowed: bool,
)
    requires
        cell.out_file is None,
        text::text_lines(normalized(outcome.output@)).len() > ctx.max_inline_lines,
    ensures
        rendered_sidecar(cell, outcome, ctx, allowed) matches Some(written) && written.link
            == ctx.md_stem@ + "-result-"@ + number::decimal((cell.index + 1) as nat) + ".txt"@
            && written.path == paths::joined(ctx.md_dir@, encode_utf8(written.link)),
{
}

} // verus!
