//! What a result is rendered to is found again in the document: it is one result block, no
//! output can end it early, and it holds no cell of its own.

use vstd::prelude::*;

use crate::apply;
use crate::apply::StageModel;
use crate::edit;
use crate::exec;
use crate::exec::ExecOutcome;
use crate::fence;
use crate::fence::FenceModel;
use crate::info;
use crate::layout;
use crate::lines;
use crate::link;
use crate::neighbours;
use crate::number;
use crate::parse;
use crate::parse::{Block, Cell, Document};
use crate::render;
use crate::render::{RenderContext, SidecarModel};
use crate::session;
use crate::session::Session;
use crate::text;
use crate::time;
use crate::writeback;

verus! {

/// Carriage returns at the end of a line make no difference to the backticks at its start.
proof fn lemma_backticks_kept(x: Seq<char>, m: int)
    requires
        0 <= m <= x.len(),
        forall|i: int| m <= i < x.len() ==> x[i] == '\r',
    ensures
        render::backticks(x.take(m)) == render::backticks(x),
{
    let y = x.take(m);
    text::lemma_leading(x, ' ');
    let n = text::leading(x, ' ') as int;
    if n > m {
        assert(x[m] == ' ');
    }
    text::lemma_leading_is(y, ' ', n);
    let a = x.skip(n);
    let b = y.skip(n);
    text::lemma_leading(a, '`');
    let k = text::leading(a, '`') as int;
    if k > m - n {
        assert(a[m - n] == '`');
        assert(x[m] == '`');
    }
    assert forall|i: int| 0 <= i < k implies b[i] == '`' by {
        assert(b[i] == a[i]);
    }
    if k < b.len() {
        assert(b[k] == a[k]);
    }
    text::lemma_leading_is(b, '`', k);
}

/// The lines of output in a document begin with as many backticks as the lines of the output.
proof fn lemma_output_lines(output: Seq<char>)
    requires
        output.len() > 0,
        output.last() != '\n',
    ensures
        ({
            let own = text::text_lines(output);
            let found = lines::line_texts(output.push('\n'));
            &&& found.len() == own.len()
            &&& forall|i: int|
                0 <= i < own.len() ==> render::backticks(#[trigger] found[i]) == render::backticks(
                    own[i],
                )
        }),
    decreases output.len(),
{
    let at = text::find_from(output, '\n', 0);
    text::lemma_find_from(output, '\n', 0);
    let found = lines::line_texts(output.push('\n'));
    let own = text::text_lines(output);
    if at < output.len() {
        let first = output.take(at);
        let rest = output.skip(at + 1);
        assert(output[output.len() - 1] != '\n');
        assert(rest.len() > 0);
        assert(rest.last() == output.last());
        lemma_output_lines(rest);
        assert(lines::is_one_line(first)) by {
            assert forall|i: int| 0 <= i < first.len() implies first[i] != '\n' by {
                assert(output[i] != '\n');
            }
        }
        lines::lemma_one_line(first);
        assert(output.push('\n') =~= first.push('\n') + rest.push('\n'));
        lines::lemma_lines_concat(first.push('\n'), rest.push('\n'));
        let found_rest = lines::line_texts(rest.push('\n'));
        let own_rest = text::text_lines(rest);
        assert(found =~= seq![text::trim_end_char(first, '\r')] + found_rest);
        assert(own =~= seq![text::strip_end(first, '\r')] + own_rest);
        text::lemma_trailing(first, '\r');
        lemma_backticks_kept(first, first.len() - text::trailing(first, '\r'));
        assert(render::backticks(text::strip_end(first, '\r')) == render::backticks(first)) by {
            if first.len() > 0 && first.last() == '\r' {
                lemma_backticks_kept(first, first.len() - 1);
                assert(first.drop_last() =~= first.take(first.len() - 1));
            }
        }
        assert forall|i: int| 0 <= i < own.len() implies render::backticks(#[trigger] found[i])
            == render::backticks(own[i]) by {
            if i > 0 {
                assert(found[i] == found_rest[i - 1]);
                assert(own[i] == own_rest[i - 1]);
            }
        }
    } else {
        assert(lines::is_one_line(output)) by {
            assert forall|i: int| 0 <= i < output.len() implies output[i] != '\n' by {
                assert(output[i] != '\n');
            }
        }
        lines::lemma_one_line(output);
        text::lemma_trailing(output, '\r');
        lemma_backticks_kept(output, output.len() - text::trailing(output, '\r'));
    }
}

/// No line begins with more backticks than the most.
proof fn lemma_most_backticks(lines: Seq<Seq<char>>)
    ensures
        render::most_backticks(lines) >= 2,
        forall|i: int|
            0 <= i < lines.len() ==> render::backticks(#[trigger] lines[i])
                <= render::most_backticks(lines),
    decreases lines.len(),
{
    if lines.len() > 0 {
        let head = lines.drop_last();
        lemma_most_backticks(head);
        assert forall|i: int| 0 <= i < lines.len() implies render::backticks(#[trigger] lines[i])
            <= render::most_backticks(lines) by {
            if i < head.len() {
                assert(lines[i] == head[i]);
            }
        }
    }
}

/// The fence around output, as it is written.
spec fn written_fence(n: nat) -> Seq<char> {
    Seq::new(n, |i: int| '`')
}

/// The line that opens the fence around output.
proof fn lemma_opening_line(n: nat)
    requires
        n >= 3,
    ensures
        fence::opening(written_fence(n) + "text"@) == Some(
            FenceModel { ch: '`', len: n, indent: 0, info: "text"@ },
        ),
        info::shell_info("text"@) is None,
        lines::is_one_line(written_fence(n) + "text"@),
        (written_fence(n) + "text"@).last() != '\r',
{
    reveal_strlit("text");
    let line = written_fence(n) + "text"@;
    text::lemma_leading_is(line, ' ', 0);
    assert(line.skip(0) =~= line);
    assert(line[n as int] == 't');
    text::lemma_leading_is(line, '`', n as int);
    let rest = line.skip(n as int);
    assert(rest =~= "text"@);
    text::lemma_leading_space_is(rest, 0);
    assert(rest.skip(0) =~= rest);
    text::lemma_trailing_space_is(rest, 0);
    assert(rest.take(rest.len() as int) =~= rest);
    assert(!rest.contains('`')) by {
        assert(forall|i: int| 0 <= i < rest.len() ==> rest[i] != '`');
    }
    lemma_text_is_no_shell();
}

proof fn lemma_text_is_no_shell()
    ensures
        info::shell_info("text"@) is None,
{
    reveal_strlit("text");
    reveal_strlit("shell");
    reveal_strlit("sh");
    reveal_strlit("bash");
    reveal_strlit("zsh");
    let t = "text"@;
    let e = Seq::<char>::empty();
    let t1 = t.drop_first();
    let t2 = t1.drop_first();
    let t3 = t2.drop_first();
    let t4 = t3.drop_first();
    assert(t4.len() == 0);
    assert(info::tokens_from(t4, e.push('t').push('e').push('x').push('t'), false) =~= seq![
        e.push('t').push('e').push('x').push('t'),
    ]);
    assert(info::tokens_from(t3, e.push('t').push('e').push('x'), false) == info::tokens_from(
        t4,
        e.push('t').push('e').push('x').push('t'),
        false,
    ));
    assert(info::tokens_from(t2, e.push('t').push('e'), false) == info::tokens_from(
        t3,
        e.push('t').push('e').push('x'),
        false,
    ));
    assert(info::tokens_from(t1, e.push('t'), false) == info::tokens_from(
        t2,
        e.push('t').push('e'),
        false,
    ));
    assert(info::tokens_from(t, e, false) == info::tokens_from(t1, e.push('t'), false));
    let token = info::tokens(t)[0];
    assert(token.len() == 4 && token[0] == 't');
    let low = info::lower(token);
    assert(low.len() == 4 && low[0] == 't');
    assert(low != "bash"@) by {
        assert("bash"@[0] == 'b');
    }
}

/// The line that closes the fence around output.
proof fn lemma_closing_fence(n: nat, f: FenceModel)
    requires
        n >= 3,
        f.ch == '`',
        f.len == n,
    ensures
        fence::closing(written_fence(n), f),
        lines::is_one_line(written_fence(n)),
        written_fence(n).last() != '\r',
{
    let line = written_fence(n);
    text::lemma_leading_is(line, ' ', 0);
    assert(line.skip(0) =~= line);
    text::lemma_leading_is(line, '`', n as int);
    assert(line.skip(n as int) =~= Seq::empty());
}

/// Whether `lines` end with the first end marker outside of code fences, and hold no cell.
spec fn ends_quietly(lines: Seq<Seq<char>>) -> bool {
    &&& lines.len() > 0
    &&& parse::end_marker_line(lines, 0) == Some(lines.len() - 1)
    &&& layout::collected(lines, 0, lines.len() as int) == Some(Seq::<Block>::empty())
}

proof fn lemma_rest_moved(before: Seq<Seq<char>>, lines: Seq<Seq<char>>)
    requires
        ends_quietly(lines),
    ensures
        parse::end_marker_line(before + lines, before.len() as int) == Some(
            before.len() + lines.len() - 1,
        ),
        layout::collected(
            before + lines,
            before.len() as int,
            (before.len() + lines.len()) as int,
        ) == Some(Seq::<Block>::empty()),
{
    assert(before + lines + Seq::<Seq<char>>::empty() =~= before + lines);
    layout::lemma_end_marker_around(before, lines, Seq::empty(), 0);
    layout::lemma_collected_around(before, lines, Seq::empty(), 0, lines.len() as int);
    assert(layout::moved_blocks(Seq::empty(), before.len() as int) =~= Seq::empty());
}

/// A line that neither opens a fence nor is an end marker changes nothing.
proof fn lemma_line_before(line: Seq<char>, lines: Seq<Seq<char>>)
    requires
        fence::opening(line) is None,
        !parse::ends_result(line),
        ends_quietly(lines),
    ensures
        ends_quietly(seq![line] + lines),
{
    let all = seq![line] + lines;
    assert(all[0] == line);
    lemma_rest_moved(seq![line], lines);
}

/// A code fence around output changes nothing, whatever the output is.
proof fn lemma_fence_before(output: Seq<char>, lines: Seq<Seq<char>>)
    requires
        output.len() > 0,
        output.last() != '\n',
        ends_quietly(lines),
    ensures
        ends_quietly(lines::line_texts(render::fenced_output(output).push('\n')) + lines),
{
    let own = text::text_lines(output);
    let n = render::most_backticks(own) + 1;
    lemma_most_backticks(own);
    let marks = written_fence(n);
    assert(marks =~= render::fence_of(output));
    lemma_opening_line(n);
    let f = FenceModel { ch: '`', len: n, indent: 0, info: "text"@ };
    lemma_closing_fence(n, f);
    let open = marks + "text"@;
    lines::lemma_plain_line(open);
    lines::lemma_plain_line(marks);
    lemma_output_lines(output);
    let inner = lines::line_texts(output.push('\n'));
    // The lines of the fence and the output.
    let block = render::fenced_output(output).push('\n');
    reveal_strlit("text\n");
    reveal_strlit("text");
    assert("text\n"@ =~= "text"@.push('\n'));
    assert(block =~= open.push('\n') + (output.push('\n') + marks.push('\n')));
    lines::lemma_lines_concat(output.push('\n'), marks.push('\n'));
    lines::lemma_lines_concat(open.push('\n'), output.push('\n') + marks.push('\n'));
    let texts = lines::line_texts(block);
    assert(texts =~= seq![open] + inner + seq![marks]);
    let all = texts + lines;
    let last = (inner.len() + 1) as int;
    assert(all[0] == open);
    assert(all[last] == marks);
    assert forall|i: int| 1 <= i < last implies !fence::closing(#[trigger] all[i], f) by {
        assert(all[i] == inner[i - 1]);
        assert(render::backticks(inner[i - 1]) == render::backticks(own[i - 1]));
    }
    lemma_closing_line_is(all, 1, last, f);
    lemma_rest_moved(texts, lines);
    assert(texts.len() == last + 1);
    assert(layout::shell_block(0, last, f) =~= Seq::<Block>::empty());
    assert(layout::collected(all, 0, all.len() as int) == Some(
        Seq::<Block>::empty() + Seq::<Block>::empty(),
    ));
    assert(Seq::<Block>::empty() + Seq::<Block>::empty() =~= Seq::<Block>::empty());
}

pub proof fn lemma_closing_line_is(lines: Seq<Seq<char>>, from: int, at: int, f: FenceModel)
    requires
        0 <= from <= at < lines.len(),
        forall|i: int| from <= i < at ==> !fence::closing(#[trigger] lines[i], f),
        fence::closing(lines[at], f),
    ensures
        fence::closing_line(lines, from, f) == Some(at),
    decreases at - from,
{
    if from < at {
        assert(!fence::closing(lines[from], f));
        lemma_closing_line_is(lines, from + 1, at, f);
    }
}

/// A line that begins with none of these characters neither opens a fence nor ends a result.
proof fn lemma_ordinary_line(line: Seq<char>)
    requires
        line.len() > 0 ==> line[0] != '`' && line[0] != '~' && line[0] != '<'
            && !text::is_white_space(line[0]),
    ensures
        fence::opening(line) is None,
        !parse::ends_result(line),
{
    reveal_strlit("<!-- runandlog:end -->");
    let marker = parse::END_MARKER@;
    text::lemma_leading_is(line, ' ', 0);
    assert(line.skip(0) =~= line);
    text::lemma_leading_space_is(line, 0);
    text::lemma_trailing_space(line);
    if parse::ends_result(line) {
        assert(text::trim(line)[0] == marker[0]);
    }
}

/// The line of the end marker.
proof fn lemma_end_line()
    ensures
        lines::line_texts(parse::END_MARKER@.push('\n')) == seq![parse::END_MARKER@],
        ends_quietly(seq![parse::END_MARKER@]),
{
    reveal_strlit("<!-- runandlog:end -->");
    let marker = parse::END_MARKER@;
    lines::lemma_plain_line(marker);
    text::lemma_leading_space_is(marker, 0);
    assert(marker.skip(0) =~= marker);
    text::lemma_trailing_space_is(marker, 0);
    assert(marker.take(marker.len() as int) =~= marker);
    text::lemma_leading_is(marker, ' ', 0);
    let lines = seq![marker];
    assert(fence::opening(marker) is None);
    assert(parse::ends_result(marker));
    assert(layout::collected(lines, 1, 1) == Some(Seq::<Block>::empty()));
    assert(layout::collected(lines, 0, 1) == Some(Seq::<Block>::empty()));
}

/// The line of the begin marker.
proof fn lemma_begin_marker()
    ensures
        lines::line_texts(parse::BEGIN_MARKER@.push('\n')) == seq![parse::BEGIN_MARKER@],
        parse::begins_result(parse::BEGIN_MARKER@),
{
    reveal_strlit("<!-- runandlog:begin -->");
    reveal_strlit("<!-- runandlog:begin");
    let marker = parse::BEGIN_MARKER@;
    let prefix = parse::BEGIN_MARKER_PREFIX@;
    lines::lemma_plain_line(marker);
    text::lemma_leading_space_is(marker, 0);
    assert(marker.skip(0) =~= marker);
    assert(marker.take(prefix.len() as int) =~= prefix);
}

/// Whether the body of a result is one that [`render::body_of`] gives, with the name of the
/// separate file on one line.
pub open spec fn is_body(body: Option<Seq<char>>) -> bool {
    match body {
        None => true,
        Some(b) => {
            ||| b == "(no output)"@
            ||| exists|file: Seq<char>| lines::is_one_line(file) && b == #[trigger] link::link_to(file)
            ||| exists|output: Seq<char>|
                output.len() > 0 && output.last() != '\n' && b == #[trigger] render::fenced_output(
                    output,
                )
        },
    }
}

/// The lines below the summary of a result.
proof fn lemma_body_lines(body: Seq<char>)
    requires
        is_body(Some(body)),
    ensures
        ends_quietly(lines::line_texts(body.push('\n')) + seq![parse::END_MARKER@]),
{
    lemma_end_line();
    let end = seq![parse::END_MARKER@];
    if body == "(no output)"@ {
        reveal_strlit("(no output)");
        lines::lemma_plain_line(body);
        lemma_ordinary_line(body);
        lemma_line_before(body, end);
    } else if exists|file: Seq<char>| lines::is_one_line(file) && body == #[trigger] link::link_to(file) {
        let file = choose|file: Seq<char>|
            lines::is_one_line(file) && body == #[trigger] link::link_to(file);
        assert(body[0] == '[');
        assert(body.last() == ')');
        lemma_link_is_one_line(file);
        lines::lemma_plain_line(body);
        lemma_ordinary_line(body);
        lemma_line_before(body, end);
    } else {
        let output = choose|output: Seq<char>|
            output.len() > 0 && output.last() != '\n' && body == #[trigger] render::fenced_output(
                output,
            );
        lemma_fence_before(output, end);
    }
}

proof fn lemma_link_is_one_line(file: Seq<char>)
    requires
        lines::is_one_line(file),
    ensures
        lines::is_one_line(link::link_to(file)),
{
    let dest = link::written_destination(file);
    assert(lines::is_one_line(dest)) by {
        assert forall|i: int| 0 <= i < dest.len() implies dest[i] != '\n' by {
            if file.contains(' ') && 0 < i <= file.len() {
                assert(dest[i] == file[i - 1]);
            }
        }
    }
    let l = link::link_to(file);
    assert forall|i: int| 0 <= i < l.len() implies l[i] != '\n' by {
        if 1 <= i <= file.len() {
            assert(l[i] == file[i - 1]);
        } else if file.len() + 3 <= i < file.len() + 3 + dest.len() {
            assert(l[i] == dest[i - file.len() - 3]);
        }
    }
}

/// A rendered block is a result block, and holds no cell, whatever the command printed.
proof fn lemma_block_is_result(summary: Seq<char>, body: Option<Seq<char>>)
    requires
        lines::is_one_line(summary),
        summary.len() > 0,
        summary[0] == 'R',
        summary.last() != '\r',
        is_body(body),
    ensures
        writeback::is_result_block(render::block_of(summary, body)),
        neighbours::holds_no_cell(render::block_of(summary, body)),
{
    let begin = parse::BEGIN_MARKER@;
    let end = parse::END_MARKER@;
    let block = render::block_of(summary, body);
    lemma_end_line();
    lemma_begin_marker();
    lines::lemma_plain_line(summary);
    lemma_ordinary_line(summary);
    let tail = match body {
        Some(b) => seq!['\n'] + (b.push('\n') + end.push('\n')),
        None => end.push('\n'),
    };
    let tail_lines = lines::line_texts(tail);
    assert(ends_quietly(tail_lines)) by {
        match body {
            Some(b) => {
                lemma_body_lines(b);
                lines::lemma_lines_concat(b.push('\n'), end.push('\n'));
                let blank = Seq::<char>::empty();
                writeback::lemma_empty_line();
                lines::lemma_lines_concat(seq!['\n'], b.push('\n') + end.push('\n'));
                lemma_ordinary_line(blank);
                lemma_line_before(blank, lines::line_texts(b.push('\n') + end.push('\n')));
            },
            None => {},
        }
    }
    lines::lemma_lines_concat(summary.push('\n'), tail);
    lemma_line_before(summary, tail_lines);
    let rest = summary.push('\n') + tail;
    let rest_lines = lines::line_texts(rest);
    assert(rest_lines == seq![summary] + tail_lines);
    lines::lemma_lines_concat(begin.push('\n'), rest);
    assert(block =~= begin.push('\n') + rest);
    let all = lines::line_texts(block);
    assert(all == seq![begin] + rest_lines);
    assert(all[0] == begin);
    lemma_rest_moved(seq![begin], rest_lines);
    parse::lemma_begin_line(begin);
}

/// The summary of a run is one line.
proof fn lemma_summary_line(outcome: ExecOutcome, lines: nat, rejected: bool)
    requires
        time::has_two_decimals(time::elapsed_text(outcome.duration@)),
    ensures
        ({
            let s = render::summary(outcome, lines, rejected);
            lines::is_one_line(s) && s.len() > 0 && s[0] == 'R' && s.last() != '\r' && s.last() != '\n'
        }),
{
    reveal_strlit("Ran result: ");
    reveal_strlit(" (");
    reveal_strlit(", ");
    reveal_strlit("s, ");
    reveal_strlit(" lines)");
    reveal_strlit(" Output exceeded the limit and was truncated.");
    reveal_strlit(
        " The designated output file points outside the Markdown directory and was ignored.",
    );
    let m = time::moment_text(outcome.started_at@);
    let st = outcome.status();
    let el = time::elapsed_text(outcome.duration@);
    let d = number::decimal(lines);
    assert(lines::is_one_line(m)) by {
        lemma_moment_is_one_line(outcome.started_at@);
    }
    assert(lines::is_one_line(st)) by {
        lemma_status_is_one_line(outcome.timed_out, outcome.cancelled, outcome.exit_code);
    }
    assert(lines::is_one_line(el));
    number::lemma_decimal(lines);
    assert(lines::is_one_line(d));
    let s1 = "Ran result: "@ + m;
    lemma_joined_line("Ran result: "@, m);
    let s2 = s1 + " ("@;
    lemma_joined_line(s1, " ("@);
    let s3 = s2 + st;
    lemma_joined_line(s2, st);
    let s4 = s3 + ", "@;
    lemma_joined_line(s3, ", "@);
    let s5 = s4 + el;
    lemma_joined_line(s4, el);
    let s6 = s5 + "s, "@;
    lemma_joined_line(s5, "s, "@);
    let s7 = s6 + d;
    lemma_joined_line(s6, d);
    let s8 = s7 + " lines)"@;
    lemma_joined_line(s7, " lines)"@);
    assert(s8[0] == 'R');
    let s9 = if outcome.truncated {
        lemma_joined_line(s8, " Output exceeded the limit and was truncated."@);
        s8 + " Output exceeded the limit and was truncated."@
    } else {
        s8
    };
    assert(s9[0] == 'R');
    lemma_joined_line(
        s9,
        " The designated output file points outside the Markdown directory and was ignored."@,
    );
}

proof fn lemma_joined_line(a: Seq<char>, b: Seq<char>)
    requires
        lines::is_one_line(a),
        lines::is_one_line(b),
    ensures
        lines::is_one_line(a + b),
{
    assert forall|i: int| 0 <= i < (a + b).len() implies (a + b)[i] != '\n' by {
        if i >= a.len() {
            assert((a + b)[i] == b[i - a.len()]);
        }
    }
}

proof fn lemma_padded_line(n: nat, width: nat)
    ensures
        lines::is_one_line(number::padded(n, width)),
{
    number::lemma_padded(n, width);
    let p = number::padded(n, width);
    assert forall|i: int| 0 <= i < p.len() implies p[i] != '\n' by {
        assert(number::is_digit(p[i]));
    }
}

proof fn lemma_moment_is_one_line(m: time::MomentModel)
    ensures
        lines::is_one_line(time::moment_text(m)),
{
    let second = m.second + m.nano / 1_000_000_000;
    lemma_padded_line((-m.year) as nat, 4);
    lemma_padded_line(m.year as nat, 4);
    lemma_padded_line(m.month as nat, 2);
    lemma_padded_line(m.day as nat, 2);
    lemma_padded_line(m.hour as nat, 2);
    lemma_padded_line(m.minute as nat, 2);
    lemma_padded_line(second as nat, 2);
    let y = time::year_text(m.year);
    lemma_joined_line(seq!['-'], number::padded((-m.year) as nat, 4));
    lemma_joined_line(seq!['+'], number::padded(m.year as nat, 4));
    assert(lines::is_one_line(y));
    let s1 = y + seq!['-'];
    lemma_joined_line(y, seq!['-']);
    let s2 = s1 + number::padded(m.month as nat, 2);
    lemma_joined_line(s1, number::padded(m.month as nat, 2));
    let s3 = s2 + seq!['-'];
    lemma_joined_line(s2, seq!['-']);
    let s4 = s3 + number::padded(m.day as nat, 2);
    lemma_joined_line(s3, number::padded(m.day as nat, 2));
    let s5 = s4 + seq![' '];
    lemma_joined_line(s4, seq![' ']);
    let s6 = s5 + number::padded(m.hour as nat, 2);
    lemma_joined_line(s5, number::padded(m.hour as nat, 2));
    let s7 = s6 + seq![':'];
    lemma_joined_line(s6, seq![':']);
    let s8 = s7 + number::padded(m.minute as nat, 2);
    lemma_joined_line(s7, number::padded(m.minute as nat, 2));
    let s9 = s8 + seq![':'];
    lemma_joined_line(s8, seq![':']);
    lemma_joined_line(s9, number::padded(second as nat, 2));
}

proof fn lemma_status_is_one_line(timed_out: bool, cancelled: bool, exit_code: Option<i32>)
    ensures
        lines::is_one_line(exec::status_of(timed_out, cancelled, exit_code)),
{
    reveal_strlit("timeout");
    reveal_strlit("cancelled");
    reveal_strlit("signaled");
    reveal_strlit("exit ");
    if exit_code is Some {
        let code = exit_code->0 as int;
        number::lemma_decimal((-code) as nat);
        number::lemma_decimal(code as nat);
        let d = number::signed_decimal(code);
        assert(lines::is_one_line(d)) by {
            assert forall|i: int| 0 <= i < d.len() implies d[i] != '\n' by {
                if code < 0 {
                    if i > 0 {
                        assert(d[i] == number::decimal((-code) as nat)[i - 1]);
                        assert(number::is_digit(d[i]));
                    }
                } else {
                    assert(number::is_digit(number::decimal(code as nat)[i]));
                }
            }
        }
        lemma_joined_line("exit "@, d);
    }
}

/// The body of a rendered result is one that cannot end the result early.
proof fn lemma_body_rendered(file: Option<Seq<char>>, linked: bool, printed: Seq<char>)
    requires
        file matches Some(f) ==> linked || lines::is_one_line(f),
    ensures
        is_body(render::body_of(file, linked, render::normalized(printed))),
        render::body_of(file, linked, render::normalized(printed)) matches Some(b) ==> b.len() > 0
            && b.last() != '\n',
{
    let output = render::normalized(printed);
    text::lemma_trailing(printed, '\n');
    reveal_strlit("(no output)");
    match file {
        Some(f) => {
            let b = link::link_to(f);
            assert(b.last() == ')');
        },
        None => {
            if output.len() > 0 {
                assert(output.last() != '\n');
                let b = render::fenced_output(output);
                let marks = render::fence_of(output);
                lemma_most_backticks(text::text_lines(output));
                assert(b.last() == marks.last());
            }
        },
    }
}

/// What stands between the markers of a result block.
pub open spec fn said(summary: Seq<char>, body: Option<Seq<char>>) -> Seq<char> {
    match body {
        Some(b) => summary + seq!['\n', '\n'] + b,
        None => summary,
    }
}

/// What stands between the markers of a result block is read back from it.
proof fn lemma_block_reads_back(summary: Seq<char>, body: Option<Seq<char>>)
    requires
        summary.len() > 0,
        summary[0] == 'R',
        summary.last() != '\n',
        body matches Some(b) ==> b.len() > 0 && b.last() != '\n',
    ensures
        edit::block_body(render::block_of(summary, body)) == said(summary, body),
{
    let whole = said(summary, body);
    let block = render::block_of(summary, body);
    assert(block =~= parse::BEGIN_MARKER@ + seq!['\n'] + whole + seq!['\n'] + parse::END_MARKER@
        + seq!['\n']);
    edit::law_block_body_reads_back(whole);
    assert(whole[0] == 'R');
    text::lemma_leading_is(whole, '\n', 0);
    assert(whole.skip(0) =~= whole);
    assert(whole.last() != '\n');
    text::lemma_trailing_is(whole, '\n', 0);
    assert(whole.take(whole.len() as int) =~= whole);
}

/// A part of one line is one line.
proof fn lemma_part_is_one_line(s: Seq<char>, from: int, to: int)
    requires
        lines::is_one_line(s),
        0 <= from <= to <= s.len(),
    ensures
        lines::is_one_line(s.subrange(from, to)),
{
    assert forall|i: int| 0 <= i < to - from implies s.subrange(from, to)[i] != '\n' by {
        assert(s.subrange(from, to)[i] == s[from + i]);
    }
}

/// A line without white space around it is one line.
proof fn lemma_trimmed_is_one_line(s: Seq<char>)
    requires
        lines::is_one_line(s),
    ensures
        lines::is_one_line(text::trim(s)),
{
    text::lemma_leading_space(s);
    let n = text::leading_space(s) as int;
    let t = text::trim_start(s);
    text::lemma_trailing_space(t);
    let m = text::trailing_space(t) as int;
    lemma_part_is_one_line(s, n, s.len() - m);
    assert(text::trim(s) =~= s.subrange(n, s.len() - m));
}

/// The tokens of one line are one line each.
proof fn lemma_tokens_are_one_line(said: Seq<char>, current: Seq<char>, quoted: bool)
    requires
        lines::is_one_line(said),
        lines::is_one_line(current),
    ensures
        forall|i: int|
            0 <= i < info::tokens_from(said, current, quoted).len() ==> lines::is_one_line(
                #[trigger] info::tokens_from(said, current, quoted)[i],
            ),
    decreases said.len(),
{
    let all = info::tokens_from(said, current, quoted);
    if said.len() == 0 {
        assert(all.len() > 0 ==> all =~= seq![current]);
    } else {
        let rest = said.drop_first();
        lemma_part_is_one_line(said, 1, said.len() as int);
        assert(rest =~= said.subrange(1, said.len() as int));
        if said[0] == '"' {
            lemma_tokens_are_one_line(rest, current.push('"'), !quoted);
            assert(all == info::tokens_from(rest, current.push('"'), !quoted));
        } else if text::is_white_space(said[0]) && !quoted {
            if current.len() == 0 {
                lemma_tokens_are_one_line(rest, current, quoted);
                assert(all == info::tokens_from(rest, current, quoted));
            } else {
                lemma_tokens_are_one_line(rest, Seq::empty(), quoted);
                let tail = info::tokens_from(rest, Seq::empty(), quoted);
                assert(all == seq![current] + tail);
                assert forall|i: int| 0 <= i < all.len() implies lines::is_one_line(
                    #[trigger] all[i],
                ) by {
                    if i > 0 {
                        assert(all[i] == tail[i - 1]);
                    }
                }
            }
        } else {
            lemma_tokens_are_one_line(rest, current.push(said[0]), quoted);
            assert(all == info::tokens_from(rest, current.push(said[0]), quoted));
        }
    }
}

/// A file that a token of one line designates has a name of one line.
proof fn lemma_designation_is_one_line(tokens: Seq<Seq<char>>)
    requires
        forall|i: int| 0 <= i < tokens.len() ==> lines::is_one_line(#[trigger] tokens[i]),
    ensures
        info::last_designation(tokens) matches Some(file) ==> lines::is_one_line(file),
    decreases tokens.len(),
{
    if tokens.len() > 0 {
        let token = tokens.last();
        assert(token == tokens[tokens.len() - 1]);
        if info::designation(token) is Some {
            let at = text::find_from(token, '=', 0);
            text::lemma_find_from(token, '=', 0);
            let value = token.skip(at + 1);
            text::lemma_leading(value, '"');
            let n = text::leading(value, '"') as int;
            let inner = value.skip(n);
            text::lemma_trailing(inner, '"');
            let m = text::trailing(inner, '"') as int;
            lemma_part_is_one_line(token, at + 1 + n, token.len() - m);
            assert(text::trim_char(value, '"') =~= token.subrange(at + 1 + n, token.len() - m));
        } else {
            assert forall|i: int| 0 <= i < tokens.len() - 1 implies lines::is_one_line(
                #[trigger] tokens.drop_last()[i],
            ) by {
                assert(tokens.drop_last()[i] == tokens[i]);
            }
            lemma_designation_is_one_line(tokens.drop_last());
        }
    }
}

/// A line of a document is one line.
proof fn lemma_line_is_one_line(s: Seq<char>, i: int)
    requires
        0 <= i < lines::line_texts(s).len(),
    ensures
        lines::is_one_line(lines::line_texts(s)[i]),
{
    lines::lemma_lines_from(s, 0);
    let span = lines::lines_of(s)[i];
    assert(span.end == lines::line_end(s, span.start));
    text::lemma_find_from(s, '\n', span.start);
    let raw = s.subrange(span.start, span.end);
    text::lemma_trailing(raw, '\n');
    let m = raw.len() - text::trailing(raw, '\n');
    let inner = text::trim_end_char(raw, '\n');
    assert forall|j: int| 0 <= j < inner.len() implies inner[j] != '\n' by {
        assert(inner[j] == s[span.start + j]);
    }
    text::lemma_trailing(inner, '\r');
    lemma_part_is_one_line(inner, 0, inner.len() - text::trailing(inner, '\r'));
    assert(lines::line_texts(s)[i] =~= inner.subrange(
        0,
        inner.len() - text::trailing(inner, '\r'),
    ));
}

/// A destination that is not written in the text stands in the line of a fence, so its name is one
/// line.
proof fn lemma_attribute_is_one_line(s: Seq<char>, k: int)
    requires
        0 <= k < parse::cells_of(s).len(),
        !parse::cells_of(s)[k].out_file_in_text,
    ensures
        parse::cells_of(s)[k].out_file matches Some(file) ==> lines::is_one_line(file),
{
    let texts = lines::line_texts(s);
    let b = parse::shell_blocks(texts, 0)[k];
    assert(parse::cells_of(s)[k] == parse::cell_of(s, b));
    layout::lemma_block(texts, 0, k);
    let line = texts[b.open];
    lemma_line_is_one_line(s, b.open);
    text::lemma_leading(line, ' ');
    let n = text::leading(line, ' ') as int;
    let rest = line.skip(n);
    text::lemma_leading(rest, b.fence.ch);
    let m = text::leading(rest, b.fence.ch) as int;
    lemma_part_is_one_line(line, n + m, line.len() as int);
    assert(rest.skip(m) =~= line.subrange(n + m, line.len() as int));
    lemma_trimmed_is_one_line(rest.skip(m));
    lemma_tokens_are_one_line(b.fence.info, Seq::empty(), false);
    let tokens = info::tokens(b.fence.info);
    assert forall|i: int| 0 <= i < tokens.drop_first().len() implies lines::is_one_line(
        #[trigger] tokens.drop_first()[i],
    ) by {
        assert(tokens.drop_first()[i] == tokens[i + 1]);
    }
    lemma_designation_is_one_line(tokens.drop_first());
}

/// The name of a separate file that a result links to is one line.
proof fn lemma_linked_file_is_one_line(
    doc: Document,
    k: int,
    outcome: ExecOutcome,
    ctx: RenderContext,
    allowed: bool,
)
    requires
        doc.wf(),
        0 <= k < doc.cells@.len(),
        lines::is_one_line(ctx.md_stem@),
    ensures
        render::rendered_file(doc.cells@[k], outcome, ctx, allowed) matches Some(file) ==> (
        doc.cells@[k].out_file_in_text && !render::is_rejected(doc.cells@[k], allowed))
            || lines::is_one_line(file),
{
    let cell = doc.cells@[k];
    assert(cell.describes(doc.text@, parse::cells_of(doc.text@)[k]));
    if render::designated(text::opt_text(cell.out_file), allowed) is Some {
        if !cell.out_file_in_text {
            lemma_attribute_is_one_line(doc.text@, k);
        }
    } else {
        let number = (cell.index + 1) as nat;
        reveal_strlit("-result-");
        reveal_strlit(".txt");
        number::lemma_decimal(number);
        let stem = ctx.md_stem@;
        lemma_joined_line(stem, "-result-"@);
        lemma_joined_line(stem + "-result-"@, number::decimal(number));
        lemma_joined_line(stem + "-result-"@ + number::decimal(number), ".txt"@);
    }
}

/// What is rendered from a run is found again as one result block, whatever the command has
/// printed; it holds no cell; and what is read back from it is the summary and the body. The name
/// of the document must not hold a line break.
pub proof fn law_rendered_result_is_found(
    doc: Document,
    k: int,
    outcome: ExecOutcome,
    ctx: RenderContext,
    allowed: bool,
)
    requires
        doc.wf(),
        0 <= k < doc.cells@.len(),
        time::has_two_decimals(time::elapsed_text(outcome.duration@)),
        lines::is_one_line(ctx.md_stem@),
    ensures
        ({
            let block = render::rendered_block(doc.cells@[k], outcome, ctx, allowed);
            let (summary, body) = render::rendered_parts(doc.cells@[k], outcome, ctx, allowed);
            &&& writeback::is_result_block(block)
            &&& neighbours::holds_no_cell(block)
            &&& edit::block_body(block) == said(summary, body)
        }),
{
    let cell = doc.cells@[k];
    let output = render::normalized(outcome.output@);
    let rejected = render::is_rejected(cell, allowed);
    let file = render::rendered_file(cell, outcome, ctx, allowed);
    let (summary, body) = render::rendered_parts(cell, outcome, ctx, allowed);
    lemma_linked_file_is_one_line(doc, k, outcome, ctx, allowed);
    lemma_summary_line(outcome, text::text_lines(output).len(), rejected);
    lemma_body_rendered(file, cell.out_file_in_text && !rejected, outcome.output@);
    lemma_block_is_result(summary, body);
    lemma_block_reads_back(summary, body);
}

/// A result whose separate file could not be written is found again too, and what is read back
/// from it is the summary and the whole output.
pub proof fn law_inline_result_is_found(cell: Cell, outcome: ExecOutcome)
    requires
        time::has_two_decimals(time::elapsed_text(outcome.duration@)),
    ensures
        ({
            let block = session::inline_block(cell, outcome);
            let output = render::normalized(outcome.output@);
            let lines = text::text_lines(output).len();
            &&& writeback::is_result_block(block)
            &&& neighbours::holds_no_cell(block)
            &&& edit::block_body(block) == said(
                render::summary(outcome, lines, cell.out_file is Some),
                render::body_of(None, false, output),
            )
        }),
{
    let output = render::normalized(outcome.output@);
    let summary = render::summary(
        outcome,
        text::text_lines(output).len(),
        cell.out_file is Some,
    );
    let body = render::body_of(None, false, output);
    lemma_summary_line(outcome, text::text_lines(output).len(), cell.out_file is Some);
    lemma_body_rendered(None, false, outcome.output@);
    lemma_block_is_result(summary, body);
    lemma_block_reads_back(summary, body);
}

/// A run is recorded: once its result is written to a cell, the result of that cell is the
/// summary of the run and the body below it. The name of the document must not hold a line break.
pub proof fn law_run_is_recorded(
    doc: Document,
    k: int,
    outcome: ExecOutcome,
    ctx: RenderContext,
    allowed: bool,
)
    requires
        doc.wf(),
        0 <= k < doc.cells@.len(),
        time::has_two_decimals(time::elapsed_text(outcome.duration@)),
        lines::is_one_line(ctx.md_stem@),
    ensures
        ({
            let s = doc.text@;
            let block = render::rendered_block(doc.cells@[k], outcome, ctx, allowed);
            let t = writeback::with_result(s, parse::cells_of(s)[k], block);
            let (summary, body) = render::rendered_parts(doc.cells@[k], outcome, ctx, allowed);
            &&& k < parse::cells_of(t).len()
            &&& parse::cells_of(t)[k].command == writeback::written_command(s, k)
            &&& writeback::result_of(t, parse::cells_of(t)[k]) == Some(said(summary, body))
        }),
{
    law_rendered_result_is_found(doc, k, outcome, ctx, allowed);
    writeback::law_written_result_is_found(
        doc.text@,
        k,
        render::rendered_block(doc.cells@[k], outcome, ctx, allowed),
    );
}

/// What writing an outcome back leaves behind, once it is known whether the designated destination
/// may be used and whether a separate file could be written: that file, and the document.
pub open spec fn left_behind(
    session: Session,
    index: int,
    outcome: ExecOutcome,
    allowed: bool,
    stored: bool,
) -> (Option<SidecarModel>, Seq<char>) {
    match apply::stage_rendered(session, index, outcome, allowed) {
        StageModel::Write(document) => (None, document),
        StageModel::Store { sidecar, markdown } => {
            let inline = session::inline_block(session.document().cells@[index], outcome);
            if stored {
                (Some(sidecar), apply::document_with(session, index, markdown))
            } else {
                (None, apply::document_with(session, index, inline))
            }
        },
        _ => (None, Seq::empty()),
    }
}

/// The output of a run is never lost. Whatever becomes of a separate file, the result of the cell
/// is found in the document that is written, and the output is either in that file or in the
/// result. The name of the document must not hold a line break.
pub proof fn law_output_is_never_lost(
    session: Session,
    index: int,
    outcome: ExecOutcome,
    allowed: bool,
    stored: bool,
)
    requires
        session.is_parsed(),
        0 <= index < session.cells().len(),
        time::has_two_decimals(time::elapsed_text(outcome.duration@)),
        lines::is_one_line(session.context().md_stem@),
    ensures
        ({
            let (file, document) = left_behind(session, index, outcome, allowed, stored);
            let output = render::normalized(outcome.output@);
            let cells = parse::cells_of(document);
            &&& index < cells.len()
            &&& cells[index].command == writeback::written_command(session.document().text@, index)
            &&& writeback::result_of(document, cells[index]) is Some
            &&& match file {
                Some(sidecar) => sidecar.contents == (if output.len() == 0 {
                    output
                } else {
                    output.push('\n')
                }),
                None => exists|rejected: bool|
                    writeback::result_of(document, cells[index]) == Some(
                        said(
                            #[trigger] render::summary(
                                outcome,
                                text::text_lines(output).len(),
                                rejected,
                            ),
                            render::body_of(None, false, output),
                        ),
                    ),
            }
        }),
{
    let s = session.document().text@;
    let cell = session.document().cells@[index];
    let output = render::normalized(outcome.output@);
    let (file, document) = left_behind(session, index, outcome, allowed, stored);
    law_run_is_recorded(session.document(), index, outcome, session.context(), allowed);
    law_inline_result_is_found(cell, outcome);
    writeback::law_written_result_is_found(s, index, session::inline_block(cell, outcome));
    let lines = text::text_lines(output).len();
    if render::rendered_sidecar(cell, outcome, session.context(), allowed) is None {
        let rejected = render::is_rejected(cell, allowed);
        let summary = render::summary(outcome, lines, rejected);
        assert(writeback::result_of(document, parse::cells_of(document)[index]) == Some(
            said(summary, render::body_of(None, false, output)),
        ));
    } else if !stored {
        let summary = render::summary(outcome, lines, cell.out_file is Some);
        assert(writeback::result_of(document, parse::cells_of(document)[index]) == Some(
            said(summary, render::body_of(None, false, output)),
        ));
    }
}

/// Two cells of a document never share a numbered file.
pub proof fn law_numbered_files_differ(stem: Seq<char>, m: nat, n: nat)
    requires
        render::numbered_file(stem, m) == render::numbered_file(stem, n),
    ensures
        m == n,
{
    reveal_strlit(".txt");
    let head = stem + "-result-"@;
    let a = render::numbered_file(stem, m);
    let k = head.len() as int;
    let end = a.len() - ".txt"@.len();
    assert(number::decimal(m) =~= a.subrange(k, end));
    assert(number::decimal(n) =~= a.subrange(k, end));
    number::lemma_decimal_injective(m, n);
}

} // verus!
