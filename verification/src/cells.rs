//! What stands in a document is what is run: a fence with a shell language is a cell, and the text
//! between its two lines is the command of that cell.

use vstd::prelude::*;

use crate::fence;
use crate::fence::FenceModel;
use crate::info;
use crate::layout;
use crate::lines;
use crate::link;
use crate::parse;
use crate::parse::Block;
use crate::roundtrip;
use crate::text;
use crate::writeback;

verus! {

/// A fence with a body: an opening line that is indented by `indent` spaces, made of `len` times
/// `ch` and an info string; the body; and a closing line like it, without an info string.
pub open spec fn fenced(
    indent: nat,
    ch: char,
    len: nat,
    said: Seq<char>,
    body: Seq<char>,
) -> Seq<char> {
    (fence::times(' ', indent) + (fence::times(ch, len) + said)).push('\n') + body + (fence::times(
        ' ',
        indent,
    ) + fence::times(ch, len)).push('\n')
}

/// Whether an info string can follow a fence made of `ch` as it is.
pub open spec fn can_follow(ch: char, said: Seq<char>) -> bool {
    &&& said.len() > 0
    &&& text::trim(said) == said
    &&& said[0] != ch
    &&& said.last() != '\r'
    &&& !said.contains('\n')
    &&& ch == '`' ==> !said.contains('`')
}

/// The lines of a fence with a body.
proof fn lemma_fenced_lines(
    indent: nat,
    ch: char,
    len: nat,
    said: Seq<char>,
    body: Seq<char>,
)
    requires
        ch == '`' || ch == '~',
        len > 0,
        can_follow(ch, said),
        lines::is_complete(body),
    ensures
        ({
            let open = fence::times(' ', indent) + (fence::times(ch, len) + said);
            let close = fence::times(' ', indent) + fence::times(ch, len);
            let all = fenced(indent, ch, len, said, body);
            &&& lines::is_complete(all)
            &&& lines::line_texts(all) == seq![open] + lines::line_texts(body) + seq![close]
            &&& lines::lines_of(all)[0].start == 0
            &&& lines::lines_of(all)[0].end == open.len() + 1
            &&& lines::lines_of(all).last().start == open.len() + 1 + body.len()
            &&& lines::lines_of(all).last().end == all.len()
        }),
{
    let open = fence::times(' ', indent) + (fence::times(ch, len) + said);
    let close = fence::times(' ', indent) + fence::times(ch, len);
    let all = fenced(indent, ch, len, said, body);
    assert forall|i: int| 0 <= i < open.len() implies open[i] != '\n' by {
        if i >= indent + len {
            assert(open[i] == said[i - indent - len]);
            assert(said.contains(said[i - indent - len]));
        }
    }
    assert(open.last() == said.last());
    assert(close.last() == ch);
    lines::lemma_plain_line(open);
    lines::lemma_plain_line(close);
    let first = open.push('\n');
    let last = close.push('\n');
    lines::lemma_lines_concat(first, body);
    lines::lemma_lines_concat(first + body, last);
    lines::lemma_lines_from(first, 0);
    lines::lemma_lines_from(last, 0);
    assert(lines::line_texts(first).len() == 1);
    assert(lines::line_texts(last).len() == 1);
    assert(lines::lines_of(first)[0] == lines::lines_of(first).last());
    assert(lines::lines_of(last)[0] == lines::lines_of(last).last());
    assert(lines::lines_of(all)[0] == lines::lines_of(first)[0]);
    assert(lines::lines_of(all).last() == lines::moved(
        lines::lines_of(last),
        (first + body).len() as int,
    )[0]);
    assert(lines::line_texts(all) =~= seq![open] + lines::line_texts(body) + seq![close]);
}

/// The blocks of a document around a fence with a body.
#[verifier::spinoff_prover]
#[verifier::rlimit(40)]
proof fn lemma_blocks_with_fence(
    before: Seq<char>,
    indent: nat,
    ch: char,
    len: nat,
    said: Seq<char>,
    body: Seq<char>,
    after: Seq<char>,
)
    requires
        lines::is_complete(before),
        layout::collected(
            lines::line_texts(before),
            0,
            lines::line_texts(before).len() as int,
        ) is Some,
        indent <= 3,
        ch == '`' || ch == '~',
        len >= 3,
        can_follow(ch, said),
        lines::is_complete(body),
        forall|i: int|
            0 <= i < lines::line_texts(body).len() ==> !fence::closing(
                #[trigger] lines::line_texts(body)[i],
                FenceModel { ch, len, indent, info: said },
            ),
    ensures
        ({
            let n = lines::line_texts(before).len() as int;
            let m = lines::line_texts(body).len() as int;
            let s = before + fenced(indent, ch, len, said, body) + after;
            let f = FenceModel { ch, len, indent, info: said };
            let texts = lines::line_texts(s);
            let own = parse::shell_blocks(lines::line_texts(after), 0);
            &&& n + m + 2 <= texts.len()
            &&& texts.skip(n + m + 2) == lines::line_texts(after)
            &&& parse::shell_blocks(texts, 0) == layout::collected(
                lines::line_texts(before),
                0,
                n,
            )->0 + layout::shell_block(n, n + m + 1, f) + layout::moved_blocks(own, n + m + 2)
        }),
{
    let la = lines::line_texts(before);
    let lb = lines::line_texts(body);
    let n = la.len() as int;
    let m = lb.len() as int;
    let block = fenced(indent, ch, len, said, body);
    let lf = lines::line_texts(block);
    let lc = lines::line_texts(after);
    let s = before + block + after;
    let f = FenceModel { ch, len, indent, info: said };
    let texts = lines::line_texts(s);
    let none = Seq::<char>::empty();
    lemma_fenced_lines(indent, ch, len, said, body);
    lines::lemma_lines_concat(before, block);
    lines::lemma_lines_concat(before + block, after);
    assert(texts =~= la + lf + lc);
    assert(lf.len() == m + 2);
    fence::law_opening_fence(indent, ch, len, said);
    fence::law_closing_fence(f, indent, len, none);
    assert(fence::times(ch, len) + none =~= fence::times(ch, len));
    assert(text::trim(none) =~= none);
    assert(texts[n] == lf[0]);
    assert(texts[n + m + 1] == lf[m + 1]);
    assert forall|i: int| n + 1 <= i < n + m + 1 implies !fence::closing(#[trigger] texts[i], f) by {
        assert(texts[i] == lf[i - n]);
        assert(lf[i - n] == lb[i - n - 1]);
    }
    roundtrip::lemma_closing_line_is(texts, n + 1, n + m + 1, f);
    assert(texts =~= la.take(n) + (lf + lc));
    layout::lemma_collected_before(la, 0, n, lf + lc);
    layout::lemma_collected_blocks(texts, 0, n);
    let head = la + lf;
    assert(texts =~= head + lc);
    layout::lemma_blocks_after(head, lc, 0);
    let rest = parse::shell_blocks(texts, n + m + 2);
    assert(parse::shell_blocks(texts, n) =~= layout::shell_block(n, n + m + 1, f) + rest);
    assert(parse::shell_blocks(texts, 0) =~= layout::collected(la, 0, n)->0 + layout::shell_block(
        n,
        n + m + 1,
        f,
    ) + rest);
    assert(texts.skip(n + m + 2) =~= lc);
}

/// Where a fence with a body stands in a document.
proof fn lemma_spans_of_fence(
    before: Seq<char>,
    indent: nat,
    ch: char,
    len: nat,
    said: Seq<char>,
    body: Seq<char>,
    after: Seq<char>,
)
    requires
        lines::is_complete(before),
        ch == '`' || ch == '~',
        len >= 3,
        can_follow(ch, said),
        lines::is_complete(body),
    ensures
        ({
            let n = lines::line_texts(before).len() as int;
            let m = lines::line_texts(body).len() as int;
            let s = before + fenced(indent, ch, len, said, body) + after;
            &&& lines::lines_of(s)[n].start == before.len()
            &&& lines::lines_of(s)[n].end == before.len() + indent + len + said.len() + 1
            &&& lines::lines_of(s)[n + m + 1].start == before.len() + indent + len + said.len() + 1
                + body.len()
            &&& lines::lines_of(s)[n + m + 1].end == before.len() + fenced(
                indent,
                ch,
                len,
                said,
                body,
            ).len()
        }),
{
    let n = lines::line_texts(before).len() as int;
    let m = lines::line_texts(body).len() as int;
    let block = fenced(indent, ch, len, said, body);
    let s = before + block + after;
    lemma_fenced_lines(indent, ch, len, said, body);
    assert(lines::line_texts(block).len() == m + 2);
    lines::lemma_lines_concat(before, block);
    lines::lemma_lines_concat(before + block, after);
    let spans = lines::lines_of(s);
    let here = lines::lines_of(before + block);
    let own = lines::lines_of(block);
    assert(spans[n] == here[n]);
    assert(here[n] == lines::moved(own, before.len() as int)[0]);
    assert(spans[n + m + 1] == here[n + m + 1]);
    assert(here[n + m + 1] == lines::moved(own, before.len() as int)[m + 1]);
    assert(own[m + 1] == own.last());
}

/// A fence with a shell language is a cell, wherever it stands: its command is the text between its
/// two lines, without the indentation of the fence; its language and its destination are what its
/// info string says. The cells before it and after it are counted as before. A fence with another
/// language is no cell.
///
/// The text before it must not leave a fence open, and no line of its body closes it.
pub proof fn law_fence_is_a_cell(
    before: Seq<char>,
    indent: nat,
    ch: char,
    len: nat,
    said: Seq<char>,
    body: Seq<char>,
    after: Seq<char>,
)
    requires
        lines::is_complete(before),
        layout::collected(
            lines::line_texts(before),
            0,
            lines::line_texts(before).len() as int,
        ) is Some,
        indent <= 3,
        ch == '`' || ch == '~',
        len >= 3,
        can_follow(ch, said),
        lines::is_complete(body),
        forall|i: int|
            0 <= i < lines::line_texts(body).len() ==> !fence::closing(
                #[trigger] lines::line_texts(body)[i],
                FenceModel { ch, len, indent, info: said },
            ),
    ensures
        ({
            let s = before + fenced(indent, ch, len, said, body) + after;
            let k = layout::collected(
                lines::line_texts(before),
                0,
                lines::line_texts(before).len() as int,
            )->0.len() as int;
            let cells = parse::cells_of(s);
            match info::shell_info(said) {
                Some(shell) => {
                    &&& cells.len() == k + 1 + parse::cells_of(after).len()
                    &&& cells[k].lang == shell.lang
                    &&& cells[k].command == parse::dedented(body, indent)
                    &&& indent == 0 ==> cells[k].command == body
                    &&& shell.out is Some ==> cells[k].out_file == shell.out
                        && !cells[k].out_file_in_text
                    &&& cells[k].fence_start == before.len()
                    &&& cells[k].fence_end == s.len() - after.len()
                },
                None => cells.len() == k + parse::cells_of(after).len(),
            }
        }),
{
    let s = before + fenced(indent, ch, len, said, body) + after;
    let n = lines::line_texts(before).len() as int;
    let m = lines::line_texts(body).len() as int;
    let f = FenceModel { ch, len, indent, info: said };
    let texts = lines::line_texts(s);
    let spans = lines::lines_of(s);
    lemma_blocks_with_fence(before, indent, ch, len, said, body, after);
    lemma_spans_of_fence(before, indent, ch, len, said, body, after);
    let k = layout::collected(lines::line_texts(before), 0, n)->0.len() as int;
    let blocks = parse::shell_blocks(texts, 0);
    match info::shell_info(said) {
        Some(shell) => {
            let b = Block { open: n, close: Some(n + m + 1), fence: f, shell };
            assert(blocks[k] == b);
            assert(parse::cells_of(s)[k] == parse::cell_of(s, b));
            assert(s.subrange(spans[n].end, spans[n + m + 1].start) =~= body);
        },
        None => {},
    }
}

/// A `Result:` paragraph below a cell designates where its result goes: the file of the link in it,
/// unless the fence designates one itself.
pub proof fn law_result_paragraph_designates_a_file(
    before: Seq<char>,
    ch: char,
    len: nat,
    said: Seq<char>,
    body: Seq<char>,
    file: Seq<char>,
    after: Seq<char>,
)
    requires
        lines::is_complete(before),
        layout::collected(
            lines::line_texts(before),
            0,
            lines::line_texts(before).len() as int,
        ) is Some,
        ch == '`' || ch == '~',
        len >= 3,
        can_follow(ch, said),
        info::shell_info(said) is Some,
        lines::is_complete(body),
        forall|i: int|
            0 <= i < lines::line_texts(body).len() ==> !fence::closing(
                #[trigger] lines::line_texts(body)[i],
                FenceModel { ch, len, indent: 0, info: said },
            ),
        link::is_linkable(file),
        !file.contains('\n'),
        after.len() == 0 || after[0] == '\n',
    ensures
        ({
            let k = layout::collected(
                lines::line_texts(before),
                0,
                lines::line_texts(before).len() as int,
            )->0.len() as int;
            let paragraph = seq!['R', 'e', 's', 'u', 'l', 't', ':', ' '] + link::link_to(file);
            let s = before + fenced(0, ch, len, said, body) + (seq!['\n'] + paragraph.push('\n')
                + after);
            let cell = parse::cells_of(s)[k];
            &&& k < parse::cells_of(s).len()
            &&& info::shell_info(said)->0.out is None ==> cell.out_file == Some(file)
                && cell.out_file_in_text
            &&& info::shell_info(said)->0.out is Some ==> cell.out_file == info::shell_info(
                said,
            )->0.out && !cell.out_file_in_text
            &&& cell.command == body
        }),
{
    let head = seq!['R', 'e', 's', 'u', 'l', 't', ':', ' '];
    let paragraph = head + link::link_to(file);
    let below = seq!['\n'] + paragraph.push('\n') + after;
    let block = fenced(0, ch, len, said, body);
    let s = before + block + below;
    let texts = lines::line_texts(s);
    let spans = lines::lines_of(s);
    let n = lines::line_texts(before).len() as int;
    let m = lines::line_texts(body).len() as int;
    let c = n + m + 1;
    law_fence_is_a_cell(before, 0, ch, len, said, body, below);
    lemma_blocks_with_fence(before, 0, ch, len, said, body, below);
    let k = layout::collected(lines::line_texts(before), 0, n)->0.len() as int;
    let f = FenceModel { ch, len, indent: 0, info: said };
    let shell = info::shell_info(said)->0;
    let b = Block { open: n, close: Some(c), fence: f, shell };
    assert(parse::shell_blocks(texts, 0)[k] == b);
    assert(parse::cells_of(s)[k] == parse::cell_of(s, b));
    let link = link::link_to(file);
    lemma_link_is_one_line(file);
    lemma_paragraph_line(paragraph, link);
    lemma_lines_below(paragraph, after);
    let lb = lines::line_texts(below);
    assert(texts.skip(c + 1)[0] == lb[0]);
    assert(texts.skip(c + 1)[1] == lb[1]);
    if c + 3 < texts.len() {
        assert(texts.skip(c + 1)[2] == lb[2]);
    }
    writeback::lemma_empty_line();
    writeback::lemma_after_blanks_is(texts, c + 1, c + 2);
    writeback::lemma_paragraph_end_is(texts, c + 2, c + 3);
    lemma_fenced_lines(0, ch, len, said, body);
    assert(lines::line_texts(block).len() == m + 2);
    lines::lemma_lines_concat(before, block);
    lines::lemma_lines_concat(before + block, below);
    let at = (before + block).len() as int;
    assert(spans[c + 2] == lines::moved(lines::lines_of(below), at)[1]);
    assert(s.subrange(spans[c + 2].start, spans[c + 2].end) =~= paragraph.push('\n'));
    assert(paragraph.push('\n') =~= head + link + seq!['\n']);
    link::law_link_reads_back(head, file, seq!['\n']);
}

/// The lines of a paragraph between blank lines.
proof fn lemma_lines_below(paragraph: Seq<char>, after: Seq<char>)
    requires
        lines::is_one_line(paragraph),
        paragraph.len() > 0,
        paragraph.last() != '\r',
        after.len() == 0 || after[0] == '\n',
    ensures
        ({
            let below = seq!['\n'] + paragraph.push('\n') + after;
            let texts = lines::line_texts(below);
            &&& texts.len() >= 2
            &&& texts[0] == Seq::<char>::empty()
            &&& texts[1] == paragraph
            &&& texts.len() > 2 ==> texts[2] == Seq::<char>::empty()
            &&& lines::lines_of(below)[1].start == 1
            &&& lines::lines_of(below)[1].end == paragraph.len() + 2
        }),
{
    let line = paragraph.push('\n');
    let first = seq!['\n'];
    let below = first + line + after;
    lines::lemma_plain_line(paragraph);
    writeback::lemma_empty_line();
    lines::lemma_lines_concat(first, line);
    lines::lemma_lines_concat(first + line, after);
    lines::lemma_lines_from(line, 0);
    assert(lines::line_texts(first).len() == 1);
    assert(lines::line_texts(line).len() == 1);
    assert(lines::lines_of(line)[0] == lines::lines_of(line).last());
    assert(lines::lines_of(below)[1] == lines::moved(lines::lines_of(line), 1)[0]);
    if after.len() > 0 {
        let rest = after.skip(1);
        assert(after =~= first + rest);
        lines::lemma_lines_concat(first, rest);
        assert(lines::line_texts(after)[0] == Seq::<char>::empty());
        assert(lines::line_texts(below)[2] == lines::line_texts(after)[0]);
    } else {
        assert(lines::line_texts(after).len() == 0);
    }
}

/// A link to a file without a line break in its name is on one line.
proof fn lemma_link_is_one_line(file: Seq<char>)
    requires
        !file.contains('\n'),
    ensures
        lines::is_one_line(seq!['R', 'e', 's', 'u', 'l', 't', ':', ' '] + link::link_to(file)),
        link::link_to(file).last() == ')',
{
    let target = link::written_destination(file);
    assert forall|i: int| 0 <= i < file.len() implies file[i] != '\n' by {
        assert(file.contains(file[i]));
    }
    assert forall|i: int| 0 <= i < target.len() implies target[i] != '\n' by {
        if file.contains(' ') && 0 < i < target.len() - 1 {
            assert(target[i] == file[i - 1]);
        }
    }
    let line = seq!['R', 'e', 's', 'u', 'l', 't', ':', ' '] + link::link_to(file);
    let n = file.len();
    assert forall|i: int| 0 <= i < line.len() implies line[i] != '\n' by {
        if 9 <= i < 9 + n {
            assert(line[i] == file[i - 9]);
        } else if 11 + n <= i < 11 + n + target.len() {
            assert(line[i] == target[i - 11 - n]);
        }
    }
}

/// A line that says `Result:` designates, and is neither blank nor a marker.
proof fn lemma_paragraph_line(paragraph: Seq<char>, link: Seq<char>)
    requires
        paragraph == seq!['R', 'e', 's', 'u', 'l', 't', ':', ' '] + link,
    ensures
        parse::designates(paragraph),
        !parse::is_blank(paragraph),
        !parse::begins_result(paragraph),
{
    let none = Seq::<char>::empty();
    assert(none + none + paragraph =~= paragraph);
    assert(paragraph[0] == 'R');
    parse::law_result_line_designates(none, none, paragraph);
    reveal_strlit("result:");
    let low = info::lower(paragraph);
    assert(low.take(7) =~= "result:"@);
    if parse::begins_result(paragraph) {
        parse::lemma_begin_line(paragraph);
    }
    parse::law_markers_are_recognised(paragraph);
    if parse::is_blank(paragraph) {
        assert(text::is_white_space(paragraph[0]));
    }
}

/// A fence that is never closed is a cell, too: its command reaches to the end of the document.
pub proof fn law_open_fence_reaches_to_the_end(
    before: Seq<char>,
    indent: nat,
    ch: char,
    len: nat,
    said: Seq<char>,
    body: Seq<char>,
)
    requires
        lines::is_complete(before),
        layout::collected(
            lines::line_texts(before),
            0,
            lines::line_texts(before).len() as int,
        ) is Some,
        indent <= 3,
        ch == '`' || ch == '~',
        len >= 3,
        can_follow(ch, said),
        info::shell_info(said) is Some,
        forall|i: int|
            0 <= i < lines::line_texts(body).len() ==> !fence::closing(
                #[trigger] lines::line_texts(body)[i],
                FenceModel { ch, len, indent, info: said },
            ),
    ensures
        ({
            let open = (fence::times(' ', indent) + (fence::times(ch, len) + said)).push('\n');
            let s = before + open + body;
            let k = layout::collected(
                lines::line_texts(before),
                0,
                lines::line_texts(before).len() as int,
            )->0.len() as int;
            let cells = parse::cells_of(s);
            &&& cells.len() == k + 1
            &&& cells[k].lang == info::shell_info(said)->0.lang
            &&& cells[k].command == parse::dedented(body, indent)
            &&& indent == 0 ==> cells[k].command == body
            &&& cells[k].fence_start == before.len()
            &&& cells[k].fence_end == s.len()
            &&& cells[k].result_span is None
        }),
{
    let line = fence::times(' ', indent) + (fence::times(ch, len) + said);
    let open = line.push('\n');
    let s = before + open + body;
    let la = lines::line_texts(before);
    let lb = lines::line_texts(body);
    let n = la.len() as int;
    let f = FenceModel { ch, len, indent, info: said };
    let shell = info::shell_info(said)->0;
    let texts = lines::line_texts(s);
    assert forall|i: int| 0 <= i < line.len() implies line[i] != '\n' by {
        if i >= indent + len {
            assert(line[i] == said[i - indent - len]);
            assert(said.contains(said[i - indent - len]));
        }
    }
    assert(line.last() == said.last());
    lines::lemma_plain_line(line);
    lines::lemma_lines_concat(before, open);
    lines::lemma_lines_concat(before + open, body);
    assert(texts =~= la + (seq![line] + lb));
    assert(texts[n] == line);
    fence::law_opening_fence(indent, ch, len, said);
    assert forall|i: int| n + 1 <= i < texts.len() implies !fence::closing(#[trigger] texts[i], f) by {
        assert(texts[i] == lb[i - n - 1]);
    }
    fence::law_first_closing_line_counts(texts, n + 1, f);
    assert(fence::closing_line(texts, n + 1, f) is None);
    assert(texts =~= la.take(n) + (seq![line] + lb));
    layout::lemma_collected_before(la, 0, n, seq![line] + lb);
    layout::lemma_collected_blocks(texts, 0, n);
    let b = Block { open: n, close: None, fence: f, shell };
    assert(parse::shell_blocks(texts, texts.len() as int) =~= Seq::empty());
    assert(parse::shell_blocks(texts, n) =~= seq![b]);
    let k = layout::collected(la, 0, n)->0.len() as int;
    assert(parse::shell_blocks(texts, 0)[k] == b);
    assert(parse::cells_of(s)[k] == parse::cell_of(s, b));
    lines::lemma_lines_from(open, 0);
    assert(lines::line_texts(open).len() == 1);
    assert(lines::lines_of(open)[0] == lines::lines_of(open).last());
    let spans = lines::lines_of(s);
    assert(spans[n] == lines::lines_of(before + open)[n]);
    assert(spans[n] == lines::moved(lines::lines_of(open), before.len() as int)[0]);
    assert(s.subrange(spans[n].end, s.len() as int) =~= body);
    assert(parse::after_blanks(texts, texts.len() as int) == texts.len());
}

} // verus!
