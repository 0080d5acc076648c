//! What writing a result back does to a document.

use vstd::prelude::*;

use crate::edit;
use crate::edit::EditModel;
use crate::fence;
use crate::layout;
use crate::lines;
use crate::lines::LineSpan;
use crate::link;
use crate::parse;
use crate::parse::{Block, Cell, CellModel, Document};
use crate::text;

verus! {

/// The fence that closes a cell, when the document leaves it open; empty otherwise.
pub open spec fn missing(s: Seq<char>, cell: CellModel) -> Seq<char> {
    edit::missing_fence(s.subrange(cell.fence_start, cell.insert_at))
}

/// What stands before the result of a cell once it is written: the text up to the existing
/// result, or up to where it is inserted, with the fence closed and a line break that keeps the
/// result apart.
pub open spec fn before_result(s: Seq<char>, cell: CellModel) -> Seq<char> {
    match cell.result_span {
        Some((start, _)) => s.take(start),
        None => {
            let before = s.take(cell.insert_at);
            let closed = before + edit::closing_text(before, missing(s, cell));
            if text::finishes_with(closed, seq!['\n', '\n']) {
                closed
            } else {
                closed.push('\n')
            }
        },
    }
}

/// What stands after the result of a cell once it is written.
pub open spec fn after_result(s: Seq<char>, cell: CellModel) -> Seq<char> {
    match cell.result_span {
        Some((_, end)) => s.skip(end),
        None => {
            let after = s.skip(cell.insert_at);
            if after.len() > 0 && after[0] != '\n' {
                seq!['\n'] + after
            } else {
                after
            }
        },
    }
}

/// The document `s` with `region` as the result of a cell.
pub open spec fn with_result(s: Seq<char>, cell: CellModel, region: Seq<char>) -> Seq<char> {
    before_result(s, cell) + region + after_result(s, cell)
}

/// Whether `region` is a result block: it begins with the begin marker, and the end marker
/// is the last line of it and the first that stands outside its code fences.
pub open spec fn is_result_block(region: Seq<char>) -> bool {
    let texts = lines::line_texts(region);
    &&& region.len() > 0
    &&& region.last() == '\n'
    &&& texts.len() >= 2
    &&& parse::begins_result(texts[0])
    &&& parse::end_marker_line(texts, 1) == Some(texts.len() - 1)
}

/// Whether `k` is a cell of `s` whose fence is closed.
pub open spec fn is_closed(s: Seq<char>, k: int) -> bool {
    let blocks = parse::shell_blocks(lines::line_texts(s), 0);
    0 <= k < blocks.len() && blocks[k].close is Some
}

/// Position at which line `i` of `s` begins, or the end of `s`.
pub open spec fn line_position(s: Seq<char>, i: int) -> int {
    if i < lines::lines_of(s).len() {
        lines::lines_of(s)[i].start
    } else {
        s.len() as int
    }
}

/// Cutting a text where a line begins parts its lines.
pub proof fn lemma_cut_at_line(s: Seq<char>, i: int)
    requires
        0 <= i <= lines::lines_of(s).len(),
    ensures
        0 <= line_position(s, i) <= s.len(),
        i < lines::lines_of(s).len() ==> lines::is_complete(s.take(line_position(s, i))),
        lines::lines_of(s.take(line_position(s, i))) == lines::lines_of(s).take(i),
        lines::line_texts(s.take(line_position(s, i))) == lines::line_texts(s).take(i),
        lines::line_texts(s.skip(line_position(s, i))) == lines::line_texts(s).skip(i),
{
    let all = lines::lines_of(s);
    let p = line_position(s, i);
    lines::lemma_lines_from(s, 0);
    if i < all.len() {
        let a = s.take(p);
        let b = s.skip(p);
        assert(lines::is_complete(a)) by {
            if i > 0 {
                let before = all[i - 1];
                lines::lemma_next_line(s, 0, i - 1);
                assert(before.end == p);
                assert(before.end == lines::line_end(s, before.start));
                text::lemma_find_from(s, '\n', before.start);
            }
        }
        assert(s =~= a + b);
        lines::lemma_lines_concat(a, b);
        lines::lemma_lines_from(a, 0);
        lines::lemma_lines_from(b, 0);
        let n = lines::lines_of(a).len() as int;
        assert(all[n].start == p);
        if n < i {
            assert(all[n].end <= all[i].start);
            assert(false);
        }
        if i < n {
            assert(all[i].end <= all[n].start);
            assert(false);
        }
        assert(lines::lines_of(a) =~= all.take(i));
        assert(lines::line_texts(a) =~= lines::line_texts(s).take(i));
        assert(lines::line_texts(b) =~= lines::line_texts(s).skip(i));
    } else {
        assert(s.take(p) =~= s);
        assert(s.skip(p) =~= Seq::empty());
        assert(all.take(i) =~= all);
        assert(lines::line_texts(s).take(i) =~= lines::line_texts(s));
        assert(lines::line_texts(s.skip(p)) =~= lines::line_texts(s).skip(i));
    }
}

/// The end of a line is where the next one begins.
pub proof fn lemma_line_end_position(s: Seq<char>, i: int)
    requires
        0 <= i < lines::lines_of(s).len(),
    ensures
        lines::lines_of(s)[i].end == line_position(s, i + 1),
        0 <= lines::lines_of(s)[i].start < lines::lines_of(s)[i].end <= s.len(),
{
    lines::lemma_lines_from(s, 0);
    if i == lines::lines_of(s).len() - 1 {
        assert(lines::lines_of(s)[i] == lines::lines_of(s).last());
    } else {
        lines::lemma_next_line(s, 0, i);
    }
}

/// The only number with these properties is the end of the blank lines.
pub proof fn lemma_after_blanks_is(lines: Seq<Seq<char>>, from: int, at: int)
    requires
        0 <= from <= at <= lines.len(),
        forall|i: int| from <= i < at ==> parse::is_blank(#[trigger] lines[i]),
        at < lines.len() ==> !parse::is_blank(lines[at]),
    ensures
        parse::after_blanks(lines, from) == at,
    decreases at - from,
{
    if from < at {
        assert(parse::is_blank(lines[from]));
        lemma_after_blanks_is(lines, from + 1, at);
    }
}

/// The only number with these properties is the end of the paragraph.
pub proof fn lemma_paragraph_end_is(lines: Seq<Seq<char>>, from: int, at: int)
    requires
        0 <= from <= at <= lines.len(),
        forall|i: int|
            from <= i < at ==> !parse::is_blank(#[trigger] lines[i]) && !parse::begins_result(
                lines[i],
            ),
        at < lines.len() ==> parse::is_blank(lines[at]) || parse::begins_result(lines[at]),
    ensures
        parse::paragraph_end(lines, from) == at,
    decreases at - from,
{
    if from < at {
        assert(!parse::is_blank(lines[from]) && !parse::begins_result(lines[from]));
        lemma_paragraph_end_is(lines, from + 1, at);
    }
}

/// An empty line is blank.
pub proof fn lemma_empty_line()
    ensures
        lines::line_texts(seq!['\n']) == seq![Seq::<char>::empty()],
        parse::is_blank(Seq::empty()),
{
    let s = seq!['\n'];
    reveal_with_fuel(lines::lines_from, 2);
    text::lemma_find_from_is(s, '\n', 0, 0);
    assert(lines::lines_of(s) =~= seq![LineSpan { start: 0, end: 1 }]);
    assert(s.subrange(0, 1) =~= s);
    text::lemma_trailing_is(s, '\n', 1);
    let e = Seq::<char>::empty();
    assert(text::trim_end_char(s, '\n') =~= e);
    assert(text::trim_end_char(e, '\r') =~= e);
    assert(lines::line_texts(s) =~= seq![e]);
}

/// Whether the text `g` begins as `s` does up to the block that is closed on line `c`, keeps
/// the designating paragraph that follows it, and is ready to be followed by a result block.
pub open spec fn leads_up(s: Seq<char>, c: int, g: Seq<char>) -> bool {
    let texts = lines::line_texts(s);
    let spans = lines::lines_of(s);
    let kept = lines::line_texts(g);
    let kept_spans = lines::lines_of(g);
    let first = parse::after_blanks(texts, c + 1);
    let end = parse::paragraph_end(texts, first);
    let paragraph = s.subrange(spans[first].start, spans[end - 1].end);
    &&& lines::is_complete(g)
    &&& 0 <= c < kept.len()
    &&& c < texts.len()
    &&& kept.take(c + 1) == texts.take(c + 1)
    &&& forall|i: int| 0 <= i <= c ==> (#[trigger] kept_spans[i]).start == spans[i].start
    &&& forall|i: int| 0 <= i < c ==> (#[trigger] kept_spans[i]).end == spans[i].end
    &&& spans[c].start <= g.len()
    &&& g.take(spans[c].start) == s.take(spans[c].start)
    &&& parse::has_paragraph(texts, c + 1) ==> {
        &&& c < first < end <= kept.len()
        &&& kept.take(end) == texts.take(end)
        &&& kept_spans[first].start == spans[first].start
        &&& kept_spans[first].start <= kept_spans[end - 1].end <= g.len()
        &&& {
            let again = g.subrange(kept_spans[first].start, kept_spans[end - 1].end);
            again == paragraph || again == paragraph.push('\n')
        }
        &&& forall|i: int| end <= i < kept.len() ==> parse::is_blank(#[trigger] kept[i])
    }
    &&& !parse::has_paragraph(texts, c + 1) ==> forall|i: int|
        c < i < kept.len() ==> parse::is_blank(#[trigger] kept[i])
}

/// The text before an existing result.
pub proof fn lemma_leads_up_to_existing(s: Seq<char>, k: int)
    requires
        is_closed(s, k),
        parse::cells_of(s)[k].result_span is Some,
    ensures
        leads_up(
            s,
            parse::shell_blocks(lines::line_texts(s), 0)[k].close->0,
            before_result(s, parse::cells_of(s)[k]),
        ),
{
    let texts = lines::line_texts(s);
    let spans = lines::lines_of(s);
    let b = parse::shell_blocks(texts, 0)[k];
    let c = b.close->0;
    layout::lemma_block(texts, 0, k);
    let cell = parse::cells_of(s)[k];
    assert(cell == parse::cell_of(s, b));
    let (x, e) = parse::result_block(texts, c + 1)->0;
    let g = before_result(s, cell);
    let first = parse::after_blanks(texts, c + 1);
    let end = parse::paragraph_end(texts, first);
    parse::lemma_after_blanks(texts, c + 1);
    lines::lemma_lines_from(s, 0);
    if parse::has_paragraph(texts, c + 1) {
        parse::lemma_paragraph_end(texts, first);
        parse::lemma_after_blanks(texts, end);
    }
    assert(c < x < texts.len());
    lemma_cut_at_line(s, x);
    assert(g == s.take(line_position(s, x)));
    let kept = lines::line_texts(g);
    assert(kept == texts.take(x));
    assert(kept.take(c + 1) =~= texts.take(c + 1));
    assert(spans[c].start <= spans[c].end <= spans[x].start);
    assert(g.take(spans[c].start) =~= s.take(spans[c].start));
    if parse::has_paragraph(texts, c + 1) {
        assert(first < end <= x);
        assert(kept.take(end) =~= texts.take(end));
        assert(spans[first].start <= spans[end - 1].end <= g.len()) by {
            if first < end - 1 {
                assert(spans[first].end <= spans[end - 1].start);
            }
            if end - 1 < x {
                assert(spans[end - 1].end <= spans[x].start);
            }
        }
        assert(g.subrange(spans[first].start, spans[end - 1].end) =~= s.subrange(
            spans[first].start,
            spans[end - 1].end,
        ));
    }
}

/// The text before an inserted result.
#[verifier::spinoff_prover]
#[verifier::rlimit(60)]
pub proof fn lemma_leads_up_to_inserted(s: Seq<char>, k: int)
    requires
        is_closed(s, k),
        parse::cells_of(s)[k].result_span is None,
    ensures
        leads_up(
            s,
            parse::shell_blocks(lines::line_texts(s), 0)[k].close->0,
            before_result(s, parse::cells_of(s)[k]),
        ),
        before_result(s, parse::cells_of(s)[k]) == s.take(
            parse::cells_of(s)[k].insert_at,
        ).push('\n'),
{
    let texts = lines::line_texts(s);
    let spans = lines::lines_of(s);
    let b = parse::shell_blocks(texts, 0)[k];
    let c = b.close->0;
    layout::lemma_block(texts, 0, k);
    let cell = parse::cells_of(s)[k];
    assert(cell == parse::cell_of(s, b));
    let g = before_result(s, cell);
    let first = parse::after_blanks(texts, c + 1);
    let end = parse::paragraph_end(texts, first);
    parse::lemma_after_blanks(texts, c + 1);
    lines::lemma_lines_from(s, 0);
    let para = parse::has_paragraph(texts, c + 1);
    if para {
        parse::lemma_paragraph_end(texts, first);
        assert(spans[first].start <= spans[end - 1].end) by {
            if first < end - 1 {
                assert(spans[first].end <= spans[end - 1].start);
            }
        }
    }
    let m = if para {
        end - 1
    } else {
        c
    };
    assert(c <= m < texts.len());
    // The line before the insertion is not blank.
    assert(!parse::is_blank(texts[m])) by {
        if !para {
            parse::lemma_closing_line(texts, b.open + 1, b.fence);
            lemma_closing_not_blank(texts[c], b.fence, texts[b.open]);
        }
    }
    let at = cell.insert_at;
    assert(at == spans[m].end);
    lemma_line_end_position(s, m);
    lemma_cut_at_line(s, m + 1);
    let h = s.take(at);
    assert(lines::line_texts(h) == texts.take(m + 1));
    assert(lines::lines_of(h) == spans.take(m + 1));
    lemma_not_doubled(s, m);
    lemma_missing(s, k);
    assert(h + Seq::<char>::empty() =~= h);
    assert(g == h.push('\n'));
    let kept = lines::line_texts(g);
    assert(g =~= h + seq!['\n']);
    assert(g.take(at) =~= h);
    assert(spans[c].start <= at);
    assert(g.take(spans[c].start) =~= s.take(spans[c].start));
    if lines::is_complete(h) {
        lines::lemma_lines_concat(h, seq!['\n']);
        lemma_empty_line();
        assert(kept =~= texts.take(m + 1).push(Seq::empty()));
        assert(kept.take(c + 1) =~= texts.take(c + 1));
        if para {
            assert(kept.take(end) =~= texts.take(end));
            assert(lines::lines_of(g)[first] == spans[first]);
            assert(lines::lines_of(g)[end - 1] == spans[end - 1]);
            assert(g.subrange(spans[first].start, at) =~= s.subrange(spans[first].start, at));
        }
    } else {
        lines::lemma_last_line_ended(h);
        assert(kept =~= texts.take(m + 1));
        assert(kept.take(c + 1) =~= texts.take(c + 1));
        if para {
            assert(kept.take(end) =~= texts.take(end));
            lines::lemma_lines_from(g, 0);
            assert(lines::lines_of(g)[m] == lines::lines_of(g).last());
            assert(g.subrange(spans[first].start, at + 1) =~= s.subrange(
                spans[first].start,
                at,
            ).push('\n'));
        }
    }
}

/// The lines of the text from a cell to where its result is inserted.
proof fn lemma_block_lines(s: Seq<char>, k: int)
    requires
        0 <= k < parse::cells_of(s).len(),
    ensures
        ({
            let texts = lines::line_texts(s);
            let b = parse::shell_blocks(texts, 0)[k];
            let cell = parse::cells_of(s)[k];
            exists|m: int|
                #![trigger texts.take(m)]
                b.open < m <= texts.len() && (b.close matches Some(c) ==> c < m) && (b.close is None
                    ==> m == texts.len()) && lines::line_texts(
                    s.subrange(cell.fence_start, cell.insert_at),
                ) == texts.take(m).skip(b.open)
        }),
{
    let texts = lines::line_texts(s);
    let spans = lines::lines_of(s);
    let b = parse::shell_blocks(texts, 0)[k];
    let cell = parse::cells_of(s)[k];
    assert(cell == parse::cell_of(s, b));
    layout::lemma_block(texts, 0, k);
    lines::lemma_lines_from(s, 0);
    let next = parse::line_after(texts, b.close);
    parse::lemma_after_blanks(texts, next);
    let first = parse::after_blanks(texts, next);
    let m = if parse::has_paragraph(texts, next) {
        parse::lemma_paragraph_end(texts, first);
        parse::paragraph_end(texts, first)
    } else {
        next
    };
    lemma_line_end_position(s, m - 1);
    if m == texts.len() {
        assert(spans[m - 1] == spans.last());
    }
    assert(cell.insert_at == line_position(s, m));
    lemma_cut_at_line(s, m);
    let h = s.take(cell.insert_at);
    assert(lines::line_texts(h) == texts.take(m));
    assert(lines::lines_of(h)[b.open] == spans[b.open]);
    lemma_cut_at_line(h, b.open);
    assert(line_position(h, b.open) == cell.fence_start);
    assert(h.skip(cell.fence_start) =~= s.subrange(cell.fence_start, cell.insert_at));
}

/// The fence of a cell is missing just when it is not closed.
pub proof fn lemma_missing(s: Seq<char>, k: int)
    requires
        0 <= k < parse::cells_of(s).len(),
    ensures
        ({
            let b = parse::shell_blocks(lines::line_texts(s), 0)[k];
            missing(s, parse::cells_of(s)[k]) == (if b.close is None {
                Seq::new(b.fence.len, |i: int| b.fence.ch)
            } else {
                Seq::empty()
            })
        }),
{
    let texts = lines::line_texts(s);
    let b = parse::shell_blocks(texts, 0)[k];
    let cell = parse::cells_of(s)[k];
    layout::lemma_block(texts, 0, k);
    lemma_block_lines(s, k);
    let m = choose|m: int|
        #![trigger texts.take(m)]
        b.open < m <= texts.len() && (b.close matches Some(c) ==> c < m) && (b.close is None ==> m
            == texts.len()) && lines::line_texts(s.subrange(cell.fence_start, cell.insert_at))
            == texts.take(m).skip(b.open);
    let part = texts.take(m).skip(b.open);
    assert(part[0] == texts[b.open]);
    let none = Seq::<Seq<char>>::empty();
    assert(texts.take(b.open) + part + none =~= texts.take(m));
    layout::lemma_closing_line_around(texts.take(b.open), part, none, 1, b.fence);
    if b.close is Some {
        assert(texts.take(m).take(m) =~= texts.take(m));
        layout::lemma_closing_line_shared(texts, texts.take(m), b.open + 1, m, b.fence);
    } else {
        assert(texts.take(m) =~= texts);
    }
}

/// A line that closes a fence is not blank.
proof fn lemma_closing_not_blank(line: Seq<char>, f: fence::FenceModel, open: Seq<char>)
    requires
        fence::closing(line, f),
        fence::opening(open) == Some(f),
    ensures
        !parse::is_blank(line),
{
    text::lemma_leading(line, ' ');
    let n = text::leading(line, ' ') as int;
    let rest = line.skip(n);
    text::lemma_leading(rest, f.ch);
    assert(rest[0] == f.ch);
    assert(line[n] == f.ch);
    text::lemma_leading_space(line);
    let start = text::trim_start(line);
    let skipped = text::leading_space(line) as int;
    if skipped > n {
        assert(text::is_white_space(line[n]));
        assert(false);
    }
    text::lemma_trailing_space(start);
    if text::trailing_space(start) == start.len() {
        assert(start[n - skipped] == line[n]);
        assert(text::is_white_space(start[n - skipped]));
        assert(false);
    }
}

/// The text up to the end of a line that is not blank does not end with an empty line.
proof fn lemma_not_doubled(s: Seq<char>, m: int)
    requires
        0 <= m < lines::lines_of(s).len(),
        !parse::is_blank(lines::line_texts(s)[m]),
    ensures
        !text::finishes_with(s.take(lines::lines_of(s)[m].end), seq!['\n', '\n']),
{
    let span = lines::lines_of(s)[m];
    let h = s.take(span.end);
    lines::lemma_lines_from(s, 0);
    if text::finishes_with(h, seq!['\n', '\n']) {
        let tail = h.skip(h.len() - 2);
        assert(tail[0] == '\n' && tail[1] == '\n');
        assert(s[span.end - 1] == '\n' && s[span.end - 2] == '\n');
        text::lemma_find_from(s, '\n', span.start);
        assert(span.end == lines::line_end(s, span.start));
        if span.end - 2 >= span.start {
            assert(false);
        }
        let raw = s.subrange(span.start, span.end);
        assert(raw =~= seq!['\n']);
        lemma_empty_line();
        text::lemma_trailing_is(raw, '\n', 1);
        assert(text::trim_end_char(raw, '\n') =~= Seq::empty());
        assert(lines::line_texts(s)[m] =~= Seq::empty());
        assert(false);
    }
}

/// What is read after a block, once a result block follows the text that leads up to it.
proof fn lemma_result_line_found(s: Seq<char>, c: int, g: Seq<char>, rest: Seq<Seq<char>>)
    requires
        leads_up(s, c, g),
        rest.len() > 0,
        parse::begins_result(rest[0]),
    ensures
        ({
            let texts = lines::line_texts(s);
            let all = lines::line_texts(g) + rest;
            let first = parse::after_blanks(texts, c + 1);
            &&& parse::result_line(all, c + 1) == lines::line_texts(g).len()
            &&& parse::has_paragraph(all, c + 1) == parse::has_paragraph(texts, c + 1)
            &&& parse::has_paragraph(texts, c + 1) ==> parse::after_blanks(all, c + 1) == first
                && parse::paragraph_end(all, first) == parse::paragraph_end(texts, first)
        }),
{
    let texts = lines::line_texts(s);
    let kept = lines::line_texts(g);
    let all = kept + rest;
    let n = kept.len() as int;
    let first = parse::after_blanks(texts, c + 1);
    let end = parse::paragraph_end(texts, first);
    parse::lemma_begin_line(rest[0]);
    assert(all[n] == rest[0]);
    parse::lemma_after_blanks(texts, c + 1);
    if parse::has_paragraph(texts, c + 1) {
        parse::lemma_paragraph_end(texts, first);
        assert forall|i: int| 0 <= i < end implies #[trigger] all[i] == texts[i] by {
            assert(kept.take(end)[i] == texts.take(end)[i]);
        }
        assert forall|i: int| c + 1 <= i < first implies parse::is_blank(#[trigger] all[i]) by {
            assert(all[i] == texts[i]);
        }
        lemma_after_blanks_is(all, c + 1, first);
        assert forall|i: int| first <= i < end implies !parse::is_blank(#[trigger] all[i])
            && !parse::begins_result(all[i]) by {
            assert(all[i] == texts[i]);
        }
        if end < n {
            assert(all[end] == kept[end]);
        }
        lemma_paragraph_end_is(all, first, end);
        assert forall|i: int| end <= i < n implies parse::is_blank(#[trigger] all[i]) by {
            assert(all[i] == kept[i]);
        }
        lemma_after_blanks_is(all, end, n);
    } else {
        assert forall|i: int| c + 1 <= i < n implies parse::is_blank(#[trigger] all[i]) by {
            assert(all[i] == kept[i]);
        }
        lemma_after_blanks_is(all, c + 1, n);
    }
}

/// The lines of a document with a result.
pub proof fn lemma_lines_with_result(g: Seq<char>, region: Seq<char>, w: Seq<char>)
    requires
        lines::is_complete(g),
        is_result_block(region),
    ensures
        lines::line_texts(g + region + w) == lines::line_texts(g) + lines::line_texts(region)
            + lines::line_texts(w),
        lines::lines_of(g + region + w).len() == lines::line_texts(g + region + w).len(),
        forall|i: int|
            0 <= i < lines::lines_of(g).len() ==> #[trigger] lines::lines_of(g + region + w)[i]
                == lines::lines_of(g)[i],
        lines::lines_of(g + region + w)[lines::lines_of(g).len() as int].start == g.len(),
        lines::lines_of(g + region + w)[lines::lines_of(g).len() + lines::lines_of(region).len()
            - 1].end == g.len() + region.len(),
{
    lines::lemma_lines_concat(g, region);
    assert(lines::is_complete(g + region));
    lines::lemma_lines_concat(g + region, w);
    lines::lemma_lines_from(region, 0);
    let n = lines::lines_of(g).len() as int;
    let r = lines::lines_of(region);
    assert(lines::lines_of(g + region)[n] == lines::moved(r, g.len() as int)[0]);
    assert(lines::lines_of(g + region)[n + r.len() - 1] == lines::moved(r, g.len() as int)[r.len()
        - 1]);
    assert(r[r.len() - 1] == r.last());
}

/// A block that is closed before the result stays the same block.
pub proof fn lemma_block_kept(s: Seq<char>, k: int, g: Seq<char>, rest: Seq<Seq<char>>)
    requires
        0 <= k < parse::shell_blocks(lines::line_texts(s), 0).len(),
        parse::shell_blocks(lines::line_texts(s), 0)[k].close matches Some(c) && leads_up(s, c, g),
    ensures
        ({
            let blocks = parse::shell_blocks(lines::line_texts(s), 0);
            let again = parse::shell_blocks(lines::line_texts(g) + rest, 0);
            &&& again.len() > k
            &&& again.take(k + 1) == blocks.take(k + 1)
            &&& again == blocks.take(k + 1) + parse::shell_blocks(
                lines::line_texts(g) + rest,
                blocks[k].close->0 + 1,
            )
        }),
{
    let texts = lines::line_texts(s);
    let kept = lines::line_texts(g);
    let all = kept + rest;
    let blocks = parse::shell_blocks(texts, 0);
    let c = blocks[k].close->0;
    layout::lemma_block(texts, 0, k);
    let tail = all.skip(c + 1);
    assert(all =~= texts.take(c + 1) + tail) by {
        assert(all.take(c + 1) =~= kept.take(c + 1));
    }
    layout::lemma_collected_before(texts, 0, c + 1, tail);
    layout::lemma_collected_blocks(all, 0, c + 1);
    assert(parse::shell_blocks(all, 0).take(k + 1) =~= blocks.take(k + 1));
}

/// What a cell is read from stays the same when its result is written.
proof fn lemma_source_kept(s: Seq<char>, b: Block, g: Seq<char>, y: Seq<char>)
    requires
        b.close matches Some(c) && leads_up(s, c, g) && 0 <= b.open < c,
        lines::line_texts(y).len() > 0,
        parse::begins_result(lines::line_texts(y)[0]),
    ensures
        parse::cell_of(g + y, b).command == parse::cell_of(s, b).command,
        parse::cell_of(g + y, b).fence_start == parse::cell_of(s, b).fence_start,
        parse::designated_file(g + y, b.close->0 + 1) == parse::designated_file(
            s,
            b.close->0 + 1,
        ),
{
    let t = g + y;
    let c = b.close->0;
    let texts = lines::line_texts(s);
    let spans = lines::lines_of(s);
    let kept = lines::lines_of(g);
    lines::lemma_lines_concat(g, y);
    let all = lines::lines_of(t);
    assert(all[b.open] == kept[b.open]);
    assert(all[c] == kept[c]);
    lines::lemma_lines_from(s, 0);
    let p = spans[c].start;
    assert(spans[b.open].end <= p);
    assert(t.take(p) =~= g.take(p));
    assert(t.subrange(spans[b.open].end, p) =~= t.take(p).subrange(spans[b.open].end, p));
    assert(s.subrange(spans[b.open].end, p) =~= s.take(p).subrange(spans[b.open].end, p));
    lemma_result_line_found(s, c, g, lines::line_texts(y));
    if parse::has_paragraph(texts, c + 1) {
        let first = parse::after_blanks(texts, c + 1);
        let end = parse::paragraph_end(texts, first);
        parse::lemma_after_blanks(texts, c + 1);
        parse::lemma_paragraph_end(texts, first);
        assert(all[first] == kept[first]);
        assert(all[end - 1] == kept[end - 1]);
        let from = kept[first].start;
        let to = kept[end - 1].end;
        assert(t.subrange(from, to) =~= g.subrange(from, to));
        link::lemma_target_with_line_break(s.subrange(spans[first].start, spans[end - 1].end));
    }
}

/// The result written to a cell whose fence is closed is found again.
proof fn lemma_result_of_closed_cell(s: Seq<char>, k: int, region: Seq<char>)
    requires
        is_closed(s, k),
        is_result_block(region),
    ensures
        ({
            let cell = parse::cells_of(s)[k];
            let t = with_result(s, cell, region);
            let again = parse::cells_of(t)[k];
            let at = before_result(s, cell).len() as int;
            &&& k < parse::cells_of(t).len()
            &&& again.lang == cell.lang
            &&& again.command == cell.command
            &&& again.out_file == cell.out_file
            &&& again.out_file_in_text == cell.out_file_in_text
            &&& again.fence_start == cell.fence_start
            &&& again.result_span == Some((at, at + region.len()))
            &&& t.subrange(at, at + region.len()) == region
            &&& is_closed(t, k)
        }),
{
    let texts = lines::line_texts(s);
    let blocks = parse::shell_blocks(texts, 0);
    let b = blocks[k];
    let c = b.close->0;
    let cell = parse::cells_of(s)[k];
    assert(cell == parse::cell_of(s, b));
    let g = before_result(s, cell);
    let w = after_result(s, cell);
    let t = with_result(s, cell, region);
    if cell.result_span is Some {
        lemma_leads_up_to_existing(s, k);
    } else {
        lemma_leads_up_to_inserted(s, k);
    }
    lemma_lines_with_result(g, region, w);
    let kept = lines::line_texts(g);
    let inner = lines::line_texts(region);
    let after = lines::line_texts(w);
    let all = lines::line_texts(t);
    assert(t =~= g + (region + w));
    assert(all =~= kept + (inner + after));
    lines::lemma_lines_concat(region, w);
    assert(lines::line_texts(region + w)[0] == inner[0]);
    layout::lemma_block(texts, 0, k);
    lemma_block_kept(s, k, g, inner + after);
    assert(parse::shell_blocks(all, 0)[k] == parse::shell_blocks(all, 0).take(k + 1)[k]);
    assert(blocks[k] == blocks.take(k + 1)[k]);
    let again = parse::cells_of(t)[k];
    assert(again == parse::cell_of(t, b));
    lemma_source_kept(s, b, g, region + w);
    lemma_result_line_found(s, c, g, inner + after);
    let n = kept.len() as int;
    assert(all =~= kept + inner + after);
    assert(all[n] == inner[0]);
    layout::lemma_end_marker_around(kept, inner, after, 1);
    assert(parse::result_block(all, c + 1) == Some((n, n + inner.len() - 1)));
    assert(t.subrange(g.len() as int, (g.len() + region.len()) as int) =~= region);
}

/// A text that ends with a line break: `s`, or `s` and a line break.
pub open spec fn ended(s: Seq<char>) -> Seq<char> {
    if lines::is_complete(s) {
        s
    } else {
        s.push('\n')
    }
}

/// The document `s` with the fence of its `k`-th cell closed.
pub open spec fn completed(s: Seq<char>, k: int) -> Seq<char> {
    s + edit::closing_text(s, missing(s, parse::cells_of(s)[k]))
}

/// The command of the `k`-th cell once its result is written. It is the same; but when its fence
/// was not closed, the last line of the document is now a whole line of it.
pub open spec fn written_command(s: Seq<char>, k: int) -> Seq<char> {
    let b = parse::shell_blocks(lines::line_texts(s), 0)[k];
    match b.close {
        Some(_) => parse::cells_of(s)[k].command,
        None => parse::dedented(ended(s.skip(lines::lines_of(s)[b.open].end)), b.fence.indent),
    }
}

/// The fence that closes a block closes it.
proof fn lemma_fence_closes(line: Seq<char>, f: fence::FenceModel)
    requires
        fence::opening(line) == Some(f),
    ensures
        fence::closing(Seq::new(f.len, |i: int| f.ch), f),
        f.len >= 3,
        f.ch != '\n' && f.ch != '\r',
{
    let marks = Seq::new(f.len, |i: int| f.ch);
    text::lemma_leading_is(marks, ' ', 0);
    let rest = marks.skip(0);
    assert(rest =~= marks);
    text::lemma_leading_is(rest, f.ch, f.len as int);
    let none = rest.skip(f.len as int);
    assert(none.len() == 0);
}

/// The lines of a document whose last fence was closed.
pub proof fn lemma_completed_lines(s: Seq<char>, k: int)
    requires
        0 <= k < parse::cells_of(s).len(),
        !is_closed(s, k),
    ensures
        ({
            let texts = lines::line_texts(s);
            let spans = lines::lines_of(s);
            let b = parse::shell_blocks(texts, 0)[k];
            let marks = Seq::new(b.fence.len, |i: int| b.fence.ch);
            let t = completed(s, k);
            let n = texts.len() as int;
            &&& t == ended(s) + marks.push('\n')
            &&& lines::line_texts(t) == texts.push(marks)
            &&& forall|i: int|
                0 <= i < n ==> (#[trigger] lines::lines_of(t)[i]).start == spans[i].start
            &&& forall|i: int|
                0 <= i < n - 1 ==> (#[trigger] lines::lines_of(t)[i]).end == spans[i].end
            &&& lines::lines_of(t)[n - 1].end == ended(s).len()
            &&& lines::lines_of(t)[n].start == ended(s).len()
            &&& lines::lines_of(t)[n].end == t.len()
        }),
{
    let texts = lines::line_texts(s);
    let b = parse::shell_blocks(texts, 0)[k];
    let marks = Seq::new(b.fence.len, |i: int| b.fence.ch);
    let t = completed(s, k);
    let whole = ended(s);
    layout::lemma_block(texts, 0, k);
    lemma_missing(s, k);
    lemma_fence_closes(texts[b.open], b.fence);
    lines::lemma_lines_from(s, 0);
    assert(s.len() > 0);
    assert(t =~= whole + marks.push('\n'));
    lines::lemma_plain_line(marks);
    lines::lemma_lines_concat(whole, marks.push('\n'));
    if !lines::is_complete(s) {
        lines::lemma_last_line_ended(s);
    }
    lines::lemma_lines_from(whole, 0);
    lines::lemma_lines_from(marks.push('\n'), 0);
    assert(lines::line_texts(t) =~= texts.push(marks));
    let n = texts.len() as int;
    assert(lines::lines_of(whole)[n - 1] == lines::lines_of(whole).last());
}

/// Closing the fence of a cell makes it a closed cell, and writing its result to it is writing it
/// to the cell that was left open.
pub proof fn lemma_completed(s: Seq<char>, k: int)
    requires
        0 <= k < parse::cells_of(s).len(),
        !is_closed(s, k),
    ensures
        ({
            let t = completed(s, k);
            let blocks = parse::shell_blocks(lines::line_texts(s), 0);
            let cell = parse::cells_of(s)[k];
            let again = parse::cells_of(t)[k];
            &&& k == parse::cells_of(s).len() - 1
            &&& parse::cells_of(t).len() == parse::cells_of(s).len()
            &&& is_closed(t, k)
            &&& parse::shell_blocks(lines::line_texts(t), 0) == blocks.take(k).push(
                Block { close: Some(lines::line_texts(s).len() as int), ..blocks[k] },
            )
            &&& again.lang == cell.lang
            &&& again.command == written_command(s, k)
            &&& again.out_file == cell.out_file
            &&& again.out_file_in_text == cell.out_file_in_text
            &&& again.fence_start == cell.fence_start
            &&& again.result_span is None
            &&& cell.result_span is None
            &&& before_result(t, again) == before_result(s, cell)
            &&& after_result(t, again) == after_result(s, cell)
        }),
{
    let texts = lines::line_texts(s);
    let spans = lines::lines_of(s);
    let blocks = parse::shell_blocks(texts, 0);
    let b = blocks[k];
    let cell = parse::cells_of(s)[k];
    assert(cell == parse::cell_of(s, b));
    let marks = Seq::new(b.fence.len, |i: int| b.fence.ch);
    let t = completed(s, k);
    let n = texts.len() as int;
    layout::lemma_block(texts, 0, k);
    lemma_completed_lines(s, k);
    lemma_fence_closes(texts[b.open], b.fence);
    layout::lemma_blocks_closed(texts, k, marks);
    let last = Block { close: Some(n), ..b };
    let again = parse::cells_of(t)[k];
    assert(parse::shell_blocks(lines::line_texts(t), 0)[k] == last);
    assert(again == parse::cell_of(t, last));
    lines::lemma_lines_from(s, 0);
    let whole = ended(s);
    assert(spans[n - 1] == spans.last());
    let body = s.skip(spans[b.open].end);
    let body_again = t.subrange(lines::lines_of(t)[b.open].end, whole.len() as int);
    assert(body_again =~= ended(body)) by {
        if b.open < n - 1 {
            assert(spans[b.open].end <= spans[n - 1].start);
            assert(body.last() == s.last());
        }
    }
    lemma_missing(t, k);
    assert(s.take(cell.insert_at) =~= s);
    assert(t.take(again.insert_at) =~= t);
    assert(t + Seq::<char>::empty() =~= t);
    assert(after_result(t, again) =~= after_result(s, cell));
}

/// The result written to a cell is found again: in the document that it was written to, the
/// same cell has the same language, command and destination, its fence is closed, and the written
/// block is its result.
pub proof fn law_written_result_is_found(s: Seq<char>, k: int, region: Seq<char>)
    requires
        0 <= k < parse::cells_of(s).len(),
        is_result_block(region),
    ensures
        ({
            let cell = parse::cells_of(s)[k];
            let t = with_result(s, cell, region);
            let again = parse::cells_of(t)[k];
            let at = before_result(s, cell).len() as int;
            &&& k < parse::cells_of(t).len()
            &&& again.lang == cell.lang
            &&& again.command == written_command(s, k)
            &&& again.out_file == cell.out_file
            &&& again.out_file_in_text == cell.out_file_in_text
            &&& again.fence_start == cell.fence_start
            &&& again.result_span == Some((at, at + region.len()))
            &&& t.subrange(at, at + region.len()) == region
            &&& is_closed(t, k)
        }),
{
    if is_closed(s, k) {
        lemma_result_of_closed_cell(s, k, region);
    } else {
        lemma_completed(s, k);
        lemma_result_of_closed_cell(completed(s, k), k, region);
    }
}

/// However often results are written to a cell, what remains is what the last of them would
/// have left alone: writing a result replaces the one before it.
pub proof fn law_last_result_remains(s: Seq<char>, k: int, first: Seq<char>, second: Seq<char>)
    requires
        0 <= k < parse::cells_of(s).len(),
        is_result_block(first),
    ensures
        ({
            let t = with_result(s, parse::cells_of(s)[k], first);
            with_result(t, parse::cells_of(t)[k], second) == with_result(
                s,
                parse::cells_of(s)[k],
                second,
            )
        }),
{
    law_written_result_is_found(s, k, first);
    let cell = parse::cells_of(s)[k];
    let g = before_result(s, cell);
    let w = after_result(s, cell);
    let t = with_result(s, cell, first);
    assert(t.take(g.len() as int) =~= g);
    assert(t.skip((g.len() + first.len()) as int) =~= w);
}

/// The positions of a cell lie in the document, one after the other.
pub proof fn lemma_cell_positions(s: Seq<char>, k: int)
    requires
        0 <= k < parse::cells_of(s).len(),
    ensures
        ({
            let cell = parse::cells_of(s)[k];
            &&& 0 <= cell.fence_start < cell.fence_end <= s.len()
            &&& cell.fence_end <= cell.insert_at <= s.len()
            &&& cell.result_span matches Some((start, end)) ==> cell.insert_at <= start < end
                <= s.len()
        }),
{
    let texts = lines::line_texts(s);
    let spans = lines::lines_of(s);
    let b = parse::shell_blocks(texts, 0)[k];
    assert(parse::cells_of(s)[k] == parse::cell_of(s, b));
    layout::lemma_block(texts, 0, k);
    lines::lemma_lines_from(s, 0);
    let next = parse::line_after(texts, b.close);
    parse::lemma_closing_line(texts, b.open + 1, b.fence);
    let first = parse::after_blanks(texts, next);
    let end = parse::paragraph_end(texts, first);
    parse::lemma_after_blanks(texts, next);
    parse::lemma_paragraph_end(texts, first);
    parse::lemma_after_blanks(texts, end);
    if b.close is Some {
        assert(spans[b.open].end <= spans[b.close->0].start);
    }
    if parse::has_paragraph(texts, next) {
        assert(end > first);
        assert(b.close is Some);
        assert(spans[b.close->0].end <= spans[end - 1].start);
    }
    if parse::result_block(texts, next) is Some {
        let (x, e) = parse::result_block(texts, next)->0;
        parse::lemma_end_marker_line(texts, x + 1);
        assert(spans[x].end <= spans[e].start);
        if parse::has_paragraph(texts, next) {
            assert(spans[end - 1].end <= spans[x].start);
        } else {
            assert(spans[b.close->0].end <= spans[x].start);
        }
    }
}

/// The byte offsets that a cell of a document holds are places at which the document can be cut.
pub proof fn lemma_cell_offsets(doc: Document, k: int)
    requires
        doc.wf(),
        0 <= k < doc.cells@.len(),
    ensures
        text::on_boundary(doc.text@, doc.cells@[k].insert_at as int),
        doc.cells@[k].result_span matches Some((start, end)) ==> edit::valid_range(
            doc.text@,
            start as int,
            end as int,
        ),
{
    let s = doc.text@;
    let model = parse::cells_of(s)[k];
    assert(doc.cells@[k].describes(s, model));
    lemma_cell_positions(s, k);
    text::lemma_byte_pos_on_boundary(s, model.insert_at);
    if model.result_span is Some {
        let (start, end) = model.result_span->0;
        text::lemma_byte_pos_on_boundary(s, start);
        text::lemma_byte_pos_on_boundary(s, end);
        text::lemma_byte_pos_monotone(s, start, end);
    }
}

/// The edit that [`Document::result_edit`] makes for a cell.
pub open spec fn result_edit_model(s: Seq<char>, cell: Cell, region: Seq<char>) -> EditModel {
    match cell.result_span {
        Some((start, end)) => EditModel {
            start: start as int,
            end: end as int,
            replacement: region,
        },
        None => EditModel {
            start: cell.insert_at as int,
            end: cell.insert_at as int,
            replacement: edit::spaced(
                s,
                cell.insert_at as int,
                edit::missing_between(s, cell.fence_start as int, cell.insert_at as int),
                region,
            ),
        },
    }
}

/// Applying the edit of one cell writes its result into the document.
pub proof fn law_edit_writes_the_result(doc: Document, k: int, region: Seq<char>)
    requires
        doc.wf(),
        0 <= k < doc.cells@.len(),
    ensures
        ({
            let edits = seq![result_edit_model(doc.text@, doc.cells@[k], region)];
            &&& edit::in_order(edits) == edits
            &&& edit::applicable(doc.text@, edits, 0)
            &&& edit::applied(doc.text@, edits, 0) == with_result(
                doc.text@,
                parse::cells_of(doc.text@)[k],
                region,
            )
        }),
{
    let s = doc.text@;
    let model = parse::cells_of(s)[k];
    let cell = doc.cells@[k];
    assert(cell.describes(s, model));
    let e = result_edit_model(s, cell, region);
    let edits = seq![e];
    assert(edits.drop_last() =~= Seq::empty());
    assert(edits.drop_first() =~= Seq::empty());
    assert(edit::in_order(Seq::<EditModel>::empty()) =~= Seq::empty());
    assert(edit::put_in_order(Seq::empty(), e) =~= edits);
    assert(edit::in_order(edits) =~= edits);
    lemma_cell_positions(s, k);
    lemma_cell_offsets(doc, k);
    let none = Seq::<EditModel>::empty();
    assert(edit::applicable(s, none, e.end));
    let (from, to) = match model.result_span {
        Some(span) => span,
        None => (model.insert_at, model.insert_at),
    };
    text::lemma_byte_pos_ends(s);
    text::lemma_byte_slice(s, 0, from);
    text::lemma_byte_slice(s, to, s.len() as int);
    assert(s.subrange(0, from) =~= s.take(from));
    assert(s.subrange(to, s.len() as int) =~= s.skip(to));
    assert(edit::applied(s, none, e.end) == s.skip(to));
    assert(edit::applied(s, edits, 0) == s.take(from) + e.replacement + s.skip(to));
    text::lemma_byte_pos_on_boundary(s, model.fence_start);
    text::lemma_byte_pos_on_boundary(s, model.insert_at);
    text::lemma_byte_pos_monotone(s, model.fence_start, model.insert_at);
    text::lemma_byte_slice(s, model.fence_start, model.insert_at);
    assert(edit::missing_between(s, cell.fence_start as int, cell.insert_at as int) == missing(
        s,
        model,
    ));
    assert(s.take(from) + e.replacement + s.skip(to) =~= with_result(s, model, region));
}

/// The result of the last run of a cell: its result block without the markers.
pub open spec fn result_of(s: Seq<char>, cell: CellModel) -> Option<Seq<char>> {
    match cell.result_span {
        Some((start, end)) => Some(edit::block_body(s.subrange(start, end))),
        None => None,
    }
}

impl Document {
    /// The result of the last run of the `k`-th cell.
    pub fn result_at(&self, k: usize) -> (result: Option<&str>)
        requires
            self.wf(),
            k < self.cells@.len(),
        ensures
            result is Some <==> result_of(
                self.text@,
                parse::cells_of(self.text@)[k as int],
            ) is Some,
            result matches Some(r) ==> r@ == result_of(
                self.text@,
                parse::cells_of(self.text@)[k as int],
            )->0,
    {
        proof {
            let model = parse::cells_of(self.text@)[k as int];
            assert(self.cells@[k as int].describes(self.text@, model));
            lemma_cell_offsets(*self, k as int);
            lemma_cell_positions(self.text@, k as int);
            if model.result_span is Some {
                let (start, end) = model.result_span->0;
                text::lemma_byte_slice(self.text@, start, end);
            }
        }
        self.result_text(&self.cells[k])
    }
}

/// Writing a result keeps everything else. Where the cell has a result already, exactly that is
/// replaced. Where it has none, the text before the place of the result and the text after it stay
/// as they are, in order, with the result between them; what is added besides it are line breaks,
/// and the fence that the document leaves open.
pub proof fn law_everything_else_is_kept(s: Seq<char>, k: int, region: Seq<char>)
    requires
        0 <= k < parse::cells_of(s).len(),
    ensures
        ({
            let cell = parse::cells_of(s)[k];
            let t = with_result(s, cell, region);
            match cell.result_span {
                Some((start, end)) => t == s.take(start) + region + s.skip(end),
                None => {
                    let at = cell.insert_at;
                    let head = before_result(s, cell);
                    let tail = after_result(s, cell);
                    &&& t == head + region + tail
                    &&& s.take(at).is_prefix_of(head)
                    &&& tail == s.skip(at) || tail == seq!['\n'] + s.skip(at)
                    &&& is_closed(s, k) ==> head == s.take(at) || head == s.take(at) + seq!['\n']
                    &&& head.last() == '\n'
                    &&& tail.len() == 0 || tail[0] == '\n'
                }
            }
        }),
{
    let cell = parse::cells_of(s)[k];
    let texts = lines::line_texts(s);
    let b = parse::shell_blocks(texts, 0)[k];
    assert(cell == parse::cell_of(s, b));
    lemma_cell_positions(s, k);
    if cell.result_span is None {
        let at = cell.insert_at;
        let head = before_result(s, cell);
        let before = s.take(at);
        let closed = before + edit::closing_text(before, missing(s, cell));
        assert(head.subrange(0, at) =~= before);
        if is_closed(s, k) {
            lemma_leads_up_to_inserted(s, k);
            lemma_missing(s, k);
            assert(closed =~= before);
            assert(before.push('\n') =~= before + seq!['\n']);
        }
    }
}

} // verus!
