//! Writing the result of one cell leaves the other cells as they are.

use vstd::prelude::*;

use crate::fence;
use crate::layout;
use crate::layout::Reading;
use crate::lines;
use crate::parse;
use crate::parse::{Block, CellModel};
use crate::text;
use crate::writeback;

verus! {

/// The same cell, `by` characters further on.
pub open spec fn moved_cell(cell: CellModel, by: int) -> CellModel {
    CellModel {
        fence_start: cell.fence_start + by,
        fence_end: cell.fence_end + by,
        result_span: match cell.result_span {
            Some((start, end)) => Some((start + by, end + by)),
            None => None,
        },
        insert_at: cell.insert_at + by,
        ..cell
    }
}

/// What is read after a block does not depend on what stands before it.
proof fn lemma_trailer_moved(before: Seq<Seq<char>>, lines: Seq<Seq<char>>, from: int)
    requires
        0 <= from <= lines.len(),
    ensures
        ({
            let all = before + lines;
            let by = before.len() as int;
            &&& parse::after_blanks(all, by + from) == by + parse::after_blanks(lines, from)
            &&& parse::has_paragraph(all, by + from) == parse::has_paragraph(lines, from)
            &&& parse::paragraph_end(all, by + parse::after_blanks(lines, from)) == by
                + parse::paragraph_end(lines, parse::after_blanks(lines, from))
            &&& parse::result_block(all, by + from) == (match parse::result_block(lines, from) {
                Some((begin, end)) => Some((by + begin, by + end)),
                None => None,
            })
        }),
{
    let all = before + lines;
    let by = before.len() as int;
    let first = parse::after_blanks(lines, from);
    let end = parse::paragraph_end(lines, first);
    lemma_after_blanks_moved(before, lines, from);
    parse::lemma_after_blanks(lines, from);
    lemma_paragraph_end_moved(before, lines, first);
    parse::lemma_paragraph_end(lines, first);
    lemma_after_blanks_moved(before, lines, end);
    parse::lemma_after_blanks(lines, end);
    if first < lines.len() {
        assert(all[by + first] == lines[first]);
    }
    let begin = parse::result_line(lines, from);
    if begin < lines.len() {
        assert(all[by + begin] == lines[begin]);
        assert(all =~= before + lines + Seq::<Seq<char>>::empty());
        layout::lemma_end_marker_around(before, lines, Seq::empty(), begin + 1);
    }
}

proof fn lemma_after_blanks_moved(before: Seq<Seq<char>>, lines: Seq<Seq<char>>, from: int)
    requires
        0 <= from <= lines.len(),
    ensures
        parse::after_blanks(before + lines, before.len() + from) == before.len()
            + parse::after_blanks(lines, from),
    decreases lines.len() - from,
{
    if from < lines.len() {
        assert((before + lines)[before.len() + from] == lines[from]);
        if parse::is_blank(lines[from]) {
            lemma_after_blanks_moved(before, lines, from + 1);
        }
    }
}

proof fn lemma_paragraph_end_moved(before: Seq<Seq<char>>, lines: Seq<Seq<char>>, from: int)
    requires
        0 <= from <= lines.len(),
    ensures
        parse::paragraph_end(before + lines, before.len() + from) == before.len()
            + parse::paragraph_end(lines, from),
    decreases lines.len() - from,
{
    if from < lines.len() {
        assert((before + lines)[before.len() + from] == lines[from]);
        if !parse::is_blank(lines[from]) && !parse::begins_result(lines[from]) {
            lemma_paragraph_end_moved(before, lines, from + 1);
        }
    }
}

/// The lines of the last part of a text.
proof fn lemma_spans_moved(a: Seq<char>, u: Seq<char>, i: int)
    requires
        lines::is_complete(a),
        0 <= i < lines::lines_of(u).len(),
    ensures
        lines::lines_of(a + u)[lines::line_texts(a).len() + i].start == lines::lines_of(u)[i].start
            + a.len(),
        lines::lines_of(a + u)[lines::line_texts(a).len() + i].end == lines::lines_of(u)[i].end
            + a.len(),
        0 <= lines::lines_of(u)[i].start < lines::lines_of(u)[i].end <= u.len(),
{
    lines::lemma_lines_concat(a, u);
    lines::lemma_lines_from(u, 0);
    assert(lines::lines_of(a + u)[lines::line_texts(a).len() + i] == lines::moved(
        lines::lines_of(u),
        a.len() as int,
    )[i]);
}

proof fn lemma_part_moved(a: Seq<char>, u: Seq<char>, from: int, to: int)
    requires
        0 <= from <= to <= u.len(),
    ensures
        (a + u).subrange(from + a.len(), to + a.len()) == u.subrange(from, to),
{
    assert((a + u).subrange(from + a.len(), to + a.len()) =~= u.subrange(from, to));
}

/// The designation after a block does not depend on what stands before it.
proof fn lemma_designation_moved(a: Seq<char>, u: Seq<char>, from: int)
    requires
        lines::is_complete(a),
        0 <= from <= lines::line_texts(u).len(),
    ensures
        parse::designated_file(a + u, lines::line_texts(a).len() + from) == parse::designated_file(
            u,
            from,
        ),
{
    let texts = lines::line_texts(u);
    let by = lines::line_texts(a).len() as int;
    lines::lemma_lines_concat(a, u);
    lemma_trailer_moved(lines::line_texts(a), texts, from);
    if parse::has_paragraph(texts, from) {
        let first = parse::after_blanks(texts, from);
        let end = parse::paragraph_end(texts, first);
        parse::lemma_after_blanks(texts, from);
        parse::lemma_paragraph_end(texts, first);
        assert(end > first);
        lemma_spans_moved(a, u, first);
        lemma_spans_moved(a, u, end - 1);
        let spans = lines::lines_of(u);
        assert(spans[first].start <= spans[end - 1].end) by {
            lines::lemma_lines_from(u, 0);
            if first < end - 1 {
                assert(spans[first].end <= spans[end - 1].start);
            }
        }
        lemma_part_moved(a, u, spans[first].start, spans[end - 1].end);
    }
}

/// Where the result stands after a block does not depend on what stands before it.
proof fn lemma_positions_moved(a: Seq<char>, u: Seq<char>, from: int)
    requires
        lines::is_complete(a),
        0 <= from <= lines::line_texts(u).len(),
    ensures
        ({
            let texts = lines::line_texts(u);
            let spans = lines::lines_of(u);
            let by = lines::line_texts(a).len() as int;
            let all = lines::line_texts(a + u);
            let all_spans = lines::lines_of(a + u);
            &&& parse::has_paragraph(all, by + from) == parse::has_paragraph(texts, from)
            &&& parse::has_paragraph(texts, from) ==> all_spans[parse::paragraph_end(
                all,
                parse::after_blanks(all, by + from),
            ) - 1].end == spans[parse::paragraph_end(texts, parse::after_blanks(texts, from))
                - 1].end + a.len()
            &&& parse::result_block(all, by + from) is Some <==> parse::result_block(
                texts,
                from,
            ) is Some
            &&& parse::result_block(texts, from) matches Some((x, e)) ==> {
                &&& parse::result_block(all, by + from) == Some((by + x, by + e))
                &&& all_spans[by + x].start == spans[x].start + a.len()
                &&& all_spans[by + e].end == spans[e].end + a.len()
            }
        }),
{
    let texts = lines::line_texts(u);
    lines::lemma_lines_concat(a, u);
    lemma_trailer_moved(lines::line_texts(a), texts, from);
    let first = parse::after_blanks(texts, from);
    let end = parse::paragraph_end(texts, first);
    parse::lemma_after_blanks(texts, from);
    parse::lemma_paragraph_end(texts, first);
    if parse::has_paragraph(texts, from) {
        assert(end > first);
        lemma_spans_moved(a, u, end - 1);
    }
    if parse::result_block(texts, from) is Some {
        let (x, e) = parse::result_block(texts, from)->0;
        parse::lemma_after_blanks(texts, end);
        parse::lemma_end_marker_line(texts, x + 1);
        lemma_spans_moved(a, u, x);
        lemma_spans_moved(a, u, e);
    }
}

/// A cell is read the same way wherever the part of the document that holds it stands.
proof fn lemma_cell_moved(a: Seq<char>, u: Seq<char>, k: int)
    requires
        lines::is_complete(a),
        0 <= k < parse::shell_blocks(lines::line_texts(u), 0).len(),
    ensures
        ({
            let b = parse::shell_blocks(lines::line_texts(u), 0)[k];
            parse::cell_of(
                a + u,
                layout::moved_block(b, lines::line_texts(a).len() as int),
            ) == moved_cell(parse::cell_of(u, b), a.len() as int)
        }),
{
    let texts = lines::line_texts(u);
    let spans = lines::lines_of(u);
    let by = lines::line_texts(a).len() as int;
    let b = parse::shell_blocks(texts, 0)[k];
    layout::lemma_block(texts, 0, k);
    lines::lemma_lines_concat(a, u);
    let next = parse::line_after(texts, b.close);
    assert(parse::line_after(lines::line_texts(a + u), layout::moved_block(b, by).close) == by
        + next);
    lemma_designation_moved(a, u, next);
    lemma_positions_moved(a, u, next);
    lemma_spans_moved(a, u, b.open);
    match b.close {
        Some(c) => {
            lemma_spans_moved(a, u, c);
            assert(spans[b.open].end <= spans[c].start) by {
                lines::lemma_lines_from(u, 0);
            }
            lemma_part_moved(a, u, spans[b.open].end, spans[c].start);
        },
        None => {
            lemma_part_moved(a, u, spans[b.open].end, u.len() as int);
        },
    }
}

/// The line at which the result of the block that is closed on line `c` begins, or before
/// which it is inserted.
pub open spec fn place(lines: Seq<Seq<char>>, c: int) -> int {
    match parse::result_block(lines, c + 1) {
        Some((begin, _)) => begin,
        None => if parse::has_paragraph(lines, c + 1) {
            parse::paragraph_end(lines, parse::after_blanks(lines, c + 1))
        } else {
            c + 1
        },
    }
}

/// The line after the existing result of the block that is closed on line `c`, or the line
/// before which a result is inserted.
pub open spec fn place_end(lines: Seq<Seq<char>>, c: int) -> int {
    match parse::result_block(lines, c + 1) {
        Some((_, end)) => end + 1,
        None => place(lines, c),
    }
}

/// Where a reader stands before the result of the block that is closed on line `c`.
pub open spec fn reading_before(lines: Seq<Seq<char>>, c: int) -> Reading {
    layout::reading(lines, c + 1, place(lines, c), Reading::Outside)
}

/// Where a reader stands after the existing result of the block that is closed on line `c`.
pub open spec fn reading_after(lines: Seq<Seq<char>>, c: int) -> Reading {
    layout::reading(lines, place(lines, c), place_end(lines, c), reading_before(lines, c))
}

/// Where a reader who stands at `now` before `region` stands after it.
pub open spec fn reading_of(region: Seq<char>, now: Reading) -> Reading {
    let texts = lines::line_texts(region);
    layout::reading(texts, 0, texts.len() as int, now)
}

/// Whether `region` as the result of the `k`-th cell of `s` leaves the cells after it alone: no
/// cell begins between that cell and its result, none in the result it had and none in `region`;
/// and a reader has the same cells ahead after `region` as after the result it had.
pub open spec fn leaves_alone(s: Seq<char>, k: int, region: Seq<char>) -> bool {
    let texts = lines::line_texts(s);
    match parse::shell_blocks(texts, 0)[k].close {
        Some(c) => {
            let rest = texts.skip(place_end(texts, c));
            let old = reading_after(texts, c);
            let new = reading_of(region, reading_before(texts, c));
            &&& !(reading_before(texts, c) is Cell)
            &&& !(old is Cell)
            &&& !(new is Cell)
            &&& layout::blocks_ahead(rest, 0, new) == layout::blocks_ahead(rest, 0, old)
        },
        None => !(reading_of(region, Reading::Outside) is Cell),
    }
}

/// Whether no cell stands between the `k`-th cell of `s` and its result, nor in that result, and
/// no fence is left open there.
pub open spec fn stands_apart(s: Seq<char>, k: int) -> bool {
    let texts = lines::line_texts(s);
    parse::shell_blocks(texts, 0)[k].close matches Some(c) ==> {
        &&& layout::collected(texts, c + 1, place(texts, c)) == Some(Seq::<Block>::empty())
        &&& layout::collected(texts, place(texts, c), place_end(texts, c)) == Some(
            Seq::<Block>::empty(),
        )
    }
}

/// Whether no cell stands in `region`, and no fence is left open by it.
pub open spec fn holds_no_cell(region: Seq<char>) -> bool {
    let texts = lines::line_texts(region);
    layout::collected(texts, 0, texts.len() as int) == Some(Seq::<Block>::empty())
}

/// Whether the place of the result of the `k`-th cell of `s` lies in a fence that opens no cell,
/// and that neither a line of the result it had nor a line of `region` closes.
pub open spec fn lies_in_fence(s: Seq<char>, k: int, region: Seq<char>) -> bool {
    let texts = lines::line_texts(s);
    let inner = lines::line_texts(region);
    parse::shell_blocks(texts, 0)[k].close matches Some(c) && reading_before(texts, c) matches
        Reading::Inside(f) && {
        &&& forall|i: int|
            place(texts, c) <= i < place_end(texts, c) ==> !fence::closing(#[trigger] texts[i], f)
        &&& forall|i: int| 0 <= i < inner.len() ==> !fence::closing(#[trigger] inner[i], f)
    }
}

/// A result that holds no cell leaves the cells after it alone, where the cell it belongs to
/// stands apart from them.
pub proof fn law_result_apart_leaves_alone(s: Seq<char>, k: int, region: Seq<char>)
    requires
        0 <= k < parse::cells_of(s).len(),
        stands_apart(s, k),
        holds_no_cell(region),
    ensures
        leaves_alone(s, k, region),
{
    let texts = lines::line_texts(s);
    let inner = lines::line_texts(region);
    layout::lemma_collected_read(inner, 0, inner.len() as int);
    match parse::shell_blocks(texts, 0)[k].close {
        Some(c) => {
            layout::lemma_collected_read(texts, c + 1, place(texts, c));
            layout::lemma_collected_read(texts, place(texts, c), place_end(texts, c));
        },
        None => {},
    }
}

/// A result that lands in a fence and does not close it leaves the cells after it alone.
pub proof fn law_result_in_fence_leaves_alone(s: Seq<char>, k: int, region: Seq<char>)
    requires
        0 <= k < parse::cells_of(s).len(),
        lies_in_fence(s, k, region),
    ensures
        leaves_alone(s, k, region),
{
    let texts = lines::line_texts(s);
    let inner = lines::line_texts(region);
    let c = parse::shell_blocks(texts, 0)[k].close->0;
    let f = reading_before(texts, c)->Inside_0;
    layout::lemma_open_fence_read(texts, place(texts, c), place_end(texts, c), f);
    layout::lemma_open_fence_read(inner, 0, inner.len() as int, f);
}

/// The lines before a result.
proof fn lemma_kept_lines(s: Seq<char>, k: int)
    requires
        writeback::is_closed(s, k),
    ensures
        ({
            let texts = lines::line_texts(s);
            let c = parse::shell_blocks(texts, 0)[k].close->0;
            let kept = lines::line_texts(writeback::before_result(s, parse::cells_of(s)[k]));
            &&& 0 <= c < place(texts, c) <= place_end(texts, c) <= texts.len()
            &&& kept == texts.take(place(texts, c)) || kept == texts.take(place(texts, c)).push(
                Seq::empty(),
            )
        }),
{
    let texts = lines::line_texts(s);
    let spans = lines::lines_of(s);
    let b = parse::shell_blocks(texts, 0)[k];
    let c = b.close->0;
    layout::lemma_block(texts, 0, k);
    let cell = parse::cells_of(s)[k];
    assert(cell == parse::cell_of(s, b));
    let first = parse::after_blanks(texts, c + 1);
    let end = parse::paragraph_end(texts, first);
    parse::lemma_after_blanks(texts, c + 1);
    parse::lemma_paragraph_end(texts, first);
    parse::lemma_after_blanks(texts, end);
    let g = writeback::before_result(s, cell);
    let m = place(texts, c);
    if cell.result_span is Some {
        let (x, e) = parse::result_block(texts, c + 1)->0;
        parse::lemma_end_marker_line(texts, x + 1);
        writeback::lemma_cut_at_line(s, x);
        assert(g == s.take(writeback::line_position(s, x)));
    } else {
        writeback::lemma_leads_up_to_inserted(s, k);
        writeback::lemma_line_end_position(s, m - 1);
        writeback::lemma_cut_at_line(s, m);
        let h = s.take(cell.insert_at);
        assert(lines::line_texts(h) == texts.take(m));
        assert(g =~= h + seq!['\n']);
        if lines::is_complete(h) {
            lines::lemma_lines_concat(h, seq!['\n']);
            writeback::lemma_empty_line();
            assert(lines::line_texts(g) =~= texts.take(m).push(Seq::empty()));
        } else {
            lines::lemma_last_line_ended(h);
        }
    }
}

/// The text after a result is the text after its place, maybe after a line break.
proof fn lemma_rest_kept(s: Seq<char>, k: int)
    requires
        writeback::is_closed(s, k),
    ensures
        ({
            let texts = lines::line_texts(s);
            let c = parse::shell_blocks(texts, 0)[k].close->0;
            let u = s.skip(writeback::line_position(s, place_end(texts, c)));
            let w = writeback::after_result(s, parse::cells_of(s)[k]);
            w == u || (w == seq!['\n'] + u && u.len() > 0)
        }),
{
    let texts = lines::line_texts(s);
    let b = parse::shell_blocks(texts, 0)[k];
    let c = b.close->0;
    layout::lemma_block(texts, 0, k);
    lemma_kept_lines(s, k);
    let cell = parse::cells_of(s)[k];
    assert(cell == parse::cell_of(s, b));
    writeback::lemma_line_end_position(s, place_end(texts, c) - 1);
}

/// The text from the line after the place of a result on.
spec fn text_after_place(s: Seq<char>, k: int) -> Seq<char> {
    let texts = lines::line_texts(s);
    s.skip(writeback::line_position(s, place_end(texts, parse::shell_blocks(texts, 0)[k].close->0)))
}

/// The blocks of a document: those up to a cell, and those after its result.
proof fn lemma_blocks_around_place(s: Seq<char>, k: int)
    requires
        writeback::is_closed(s, k),
        !(reading_before(
            lines::line_texts(s),
            parse::shell_blocks(lines::line_texts(s), 0)[k].close->0,
        ) is Cell),
        !(reading_after(
            lines::line_texts(s),
            parse::shell_blocks(lines::line_texts(s), 0)[k].close->0,
        ) is Cell),
    ensures
        ({
            let texts = lines::line_texts(s);
            let blocks = parse::shell_blocks(texts, 0);
            let c = blocks[k].close->0;
            blocks == blocks.take(k + 1) + layout::blocks_ahead(
                texts,
                place_end(texts, c),
                reading_after(texts, c),
            )
        }),
{
    let texts = lines::line_texts(s);
    let blocks = parse::shell_blocks(texts, 0);
    let c = blocks[k].close->0;
    layout::lemma_block(texts, 0, k);
    lemma_kept_lines(s, k);
    layout::lemma_collected_blocks(texts, 0, c + 1);
    layout::lemma_blocks_ahead(texts, c + 1, place(texts, c), Reading::Outside);
    layout::lemma_blocks_ahead(
        texts,
        place(texts, c),
        place_end(texts, c),
        reading_before(texts, c),
    );
}

/// Passing over an empty line passes over no block, and leaves the reader where it stands.
proof fn lemma_empty_line_passed(lines: Seq<Seq<char>>, at: int, now: Reading)
    requires
        0 <= at < lines.len(),
        lines[at].len() == 0,
        layout::is_proper(now),
        !(now is Cell),
    ensures
        layout::blocks_ahead(lines, at, now) == layout::blocks_ahead(lines, at + 1, now),
{
    layout::lemma_empty_line_read(lines[at], now);
    assert(layout::reading(lines, at + 1, at + 1, now) == now);
    assert(layout::reading(lines, at, at + 1, now) == now);
    layout::lemma_blocks_ahead(lines, at, at + 1, now);
}

/// The blocks of a document with a result, up to that result.
proof fn lemma_blocks_up_to_result(s: Seq<char>, k: int, rest: Seq<Seq<char>>)
    requires
        writeback::is_closed(s, k),
        !(reading_before(
            lines::line_texts(s),
            parse::shell_blocks(lines::line_texts(s), 0)[k].close->0,
        ) is Cell),
    ensures
        ({
            let texts = lines::line_texts(s);
            let blocks = parse::shell_blocks(texts, 0);
            let kept = lines::line_texts(writeback::before_result(s, parse::cells_of(s)[k]));
            parse::shell_blocks(kept + rest, 0) == blocks.take(k + 1) + layout::blocks_ahead(
                kept + rest,
                kept.len() as int,
                reading_before(texts, blocks[k].close->0),
            )
        }),
{
    let texts = lines::line_texts(s);
    let c = parse::shell_blocks(texts, 0)[k].close->0;
    let now = reading_before(texts, c);
    let cell = parse::cells_of(s)[k];
    assert(cell == parse::cell_of(s, parse::shell_blocks(texts, 0)[k]));
    let g = writeback::before_result(s, cell);
    if cell.result_span is Some {
        writeback::lemma_leads_up_to_existing(s, k);
    } else {
        writeback::lemma_leads_up_to_inserted(s, k);
    }
    lemma_kept_lines(s, k);
    let m = place(texts, c);
    let kept = lines::line_texts(g);
    let all = kept + rest;
    writeback::lemma_block_kept(s, k, g, rest);
    assert forall|i: int| c + 1 <= i < m implies #[trigger] texts[i] == all[i + 0] by {
        assert(all[i] == kept[i]);
        assert(texts.take(m)[i] == texts[i]);
    }
    layout::lemma_reading_shared(texts, all, c + 1, m, 0, Reading::Outside);
    layout::lemma_blocks_ahead(all, c + 1, m, Reading::Outside);
    if kept.len() == m + 1 {
        assert(all[m] == kept[m]);
        layout::lemma_reading_proper(texts, c + 1, m, Reading::Outside);
        lemma_empty_line_passed(all, m, now);
    }
}

/// The blocks of a document with a result, from that result on.
proof fn lemma_blocks_from_result(
    kept: Seq<Seq<char>>,
    region: Seq<char>,
    w: Seq<char>,
    u: Seq<char>,
    now: Reading,
)
    requires
        layout::is_proper(now),
        !(reading_of(region, now) is Cell),
        w == u || w == seq!['\n'] + u,
    ensures
        ({
            let inner = lines::line_texts(region);
            let all = kept + (inner + lines::line_texts(w));
            let by = kept.len() + inner.len() + if w == u {
                0int
            } else {
                1
            };
            layout::blocks_ahead(all, kept.len() as int, now) == layout::moved_blocks(
                layout::blocks_ahead(lines::line_texts(u), 0, reading_of(region, now)),
                by,
            )
        }),
{
    let inner = lines::line_texts(region);
    let after = lines::line_texts(w);
    let all = kept + (inner + after);
    let n = kept.len() as int;
    let m = inner.len() as int;
    let new = reading_of(region, now);
    assert forall|i: int| 0 <= i < m implies #[trigger] inner[i] == all[i + n] by {}
    layout::lemma_reading_shared(inner, all, 0, m, n, now);
    layout::lemma_blocks_ahead(all, n, n + m, now);
    if w != u {
        lines::lemma_lines_concat(seq!['\n'], u);
        writeback::lemma_empty_line();
        assert(all[n + m] == after[0]);
        layout::lemma_reading_proper(inner, 0, m, now);
        lemma_empty_line_passed(all, n + m, new);
        let head = kept + inner + seq![Seq::<char>::empty()];
        assert(all =~= head + lines::line_texts(u));
        layout::lemma_blocks_ahead_after(head, lines::line_texts(u), new);
    } else {
        assert(all =~= kept + inner + lines::line_texts(u));
        layout::lemma_blocks_ahead_after(kept + inner, lines::line_texts(u), new);
    }
}

/// What stands before the rest of a document with a result.
proof fn lemma_head_of_rest(s: Seq<char>, k: int, region: Seq<char>) -> (head: Seq<char>)
    requires
        writeback::is_closed(s, k),
        writeback::is_result_block(region),
    ensures
        ({
            let cell = parse::cells_of(s)[k];
            let g = writeback::before_result(s, cell);
            let u = text_after_place(s, k);
            let w = writeback::after_result(s, cell);
            let t = writeback::with_result(s, cell, region);
            &&& lines::is_complete(g)
            &&& lines::is_complete(head)
            &&& t == head + u
            &&& w == u || w == seq!['\n'] + u
            &&& lines::line_texts(head).len() == lines::line_texts(g).len() + lines::line_texts(
                region,
            ).len() + if w == u {
                0int
            } else {
                1
            }
            &&& lines::line_texts(t) == lines::line_texts(g) + (lines::line_texts(region)
                + lines::line_texts(w))
        }),
{
    let cell = parse::cells_of(s)[k];
    assert(cell == parse::cell_of(s, parse::shell_blocks(lines::line_texts(s), 0)[k]));
    let g = writeback::before_result(s, cell);
    let u = text_after_place(s, k);
    let w = writeback::after_result(s, cell);
    let t = writeback::with_result(s, cell, region);
    if cell.result_span is Some {
        writeback::lemma_leads_up_to_existing(s, k);
    } else {
        writeback::lemma_leads_up_to_inserted(s, k);
    }
    lemma_rest_kept(s, k);
    writeback::lemma_lines_with_result(g, region, w);
    assert(lines::line_texts(t) =~= lines::line_texts(g) + (lines::line_texts(region)
        + lines::line_texts(w)));
    lines::lemma_lines_concat(g, region);
    if w == u {
        g + region
    } else {
        lines::lemma_lines_concat(g + region, seq!['\n']);
        writeback::lemma_empty_line();
        assert(t =~= g + region + seq!['\n'] + u);
        g + region + seq!['\n']
    }
}

/// The cells of the last part of a document, from the line on from which a reader is outside of
/// all fences.
proof fn lemma_cells_ahead(a: Seq<char>, u: Seq<char>, now: Reading, i: int)
    requires
        lines::is_complete(a),
        0 <= i < layout::blocks_ahead(lines::line_texts(u), 0, now).len(),
    ensures
        ({
            let b = layout::blocks_ahead(lines::line_texts(u), 0, now)[i];
            let is = parse::cell_of(
                a + u,
                layout::moved_block(b, lines::line_texts(a).len() as int),
            );
            &&& is == moved_cell(parse::cell_of(u, b), a.len() as int)
            &&& writeback::result_of(a + u, is) == writeback::result_of(u, parse::cell_of(u, b))
        }),
{
    let texts = lines::line_texts(u);
    let none = Seq::<Seq<char>>::empty();
    let b = layout::blocks_ahead(texts, 0, now)[i];
    assert(none + texts =~= texts);
    layout::lemma_blocks_ahead_after(none, texts, now);
    let r = layout::line_outside(texts, 0, now);
    let p = writeback::line_position(u, r);
    writeback::lemma_cut_at_line(u, r);
    let v = u.take(p);
    let x = u.skip(p);
    let own = parse::shell_blocks(lines::line_texts(x), 0);
    assert(texts =~= lines::line_texts(v) + lines::line_texts(x));
    layout::lemma_blocks_after(lines::line_texts(v), lines::line_texts(x), 0);
    assert(b == layout::moved_block(own[i], r));
    assert(r < texts.len()) by {
        if r >= texts.len() {
            assert(parse::shell_blocks(texts, r).len() == 0);
        }
    }
    lines::lemma_lines_concat(a, v);
    assert(lines::is_complete(a + v));
    assert(u =~= v + x);
    assert(a + u =~= (a + v) + x);
    assert(layout::moved_block(b, lines::line_texts(a).len() as int) == layout::moved_block(
        own[i],
        lines::line_texts(a + v).len() as int,
    ));
    lemma_cell_moved(v, x, i);
    lemma_cell_moved(a + v, x, i);
    let cell = parse::cell_of(x, own[i]);
    assert(parse::cells_of(x)[i] == cell);
    lemma_moved_twice(cell, v.len() as int, (a + v).len() as int);
    lemma_result_moved(v, x, i);
    lemma_result_moved(a + v, x, i);
}

/// The cells after a result that was written.
proof fn lemma_cells_after_result(s: Seq<char>, k: int, region: Seq<char>)
    requires
        writeback::is_closed(s, k),
        writeback::is_result_block(region),
        leaves_alone(s, k, region),
    ensures
        ({
            let cells = parse::cells_of(s);
            let t = writeback::with_result(s, cells[k], region);
            let again = parse::cells_of(t);
            &&& again.len() == cells.len()
            &&& parse::shell_blocks(lines::line_texts(t), 0).take(k + 1) == parse::shell_blocks(
                lines::line_texts(s),
                0,
            ).take(k + 1)
            &&& forall|j: int|
                k < j < cells.len() ==> #[trigger] again[j] == moved_cell(
                    cells[j],
                    t.len() - s.len(),
                ) && writeback::result_of(t, again[j]) == writeback::result_of(s, cells[j])
        }),
{
    let texts = lines::line_texts(s);
    let blocks = parse::shell_blocks(texts, 0);
    let c = blocks[k].close->0;
    let cell = parse::cells_of(s)[k];
    let g = writeback::before_result(s, cell);
    let w = writeback::after_result(s, cell);
    let t = writeback::with_result(s, cell, region);
    let all = lines::line_texts(t);
    let again = parse::shell_blocks(all, 0);
    let pe = place_end(texts, c);
    let q = writeback::line_position(s, pe);
    let u = text_after_place(s, k);
    let now = reading_before(texts, c);
    let old = reading_after(texts, c);
    let own = layout::blocks_ahead(lines::line_texts(u), 0, old);
    lemma_kept_lines(s, k);
    lemma_blocks_around_place(s, k);
    writeback::lemma_cut_at_line(s, pe);
    let a = s.take(q);
    assert(texts =~= lines::line_texts(a) + lines::line_texts(u));
    assert(s =~= a + u);
    layout::lemma_blocks_ahead_after(lines::line_texts(a), lines::line_texts(u), old);
    assert(blocks == blocks.take(k + 1) + layout::moved_blocks(own, pe));
    let head = lemma_head_of_rest(s, k, region);
    let by = lines::line_texts(head).len() as int;
    layout::lemma_reading_proper(texts, c + 1, place(texts, c), Reading::Outside);
    lemma_blocks_up_to_result(s, k, lines::line_texts(region) + lines::line_texts(w));
    lemma_blocks_from_result(lines::line_texts(g), region, w, u, now);
    assert(again == blocks.take(k + 1) + layout::moved_blocks(own, by));
    assert(again.take(k + 1) =~= blocks.take(k + 1));
    assert(parse::cells_of(t).len() == parse::cells_of(s).len());
    assert forall|j: int| k < j < parse::cells_of(s).len() implies #[trigger] parse::cells_of(t)[j]
        == moved_cell(parse::cells_of(s)[j], t.len() - s.len()) && writeback::result_of(
        t,
        parse::cells_of(t)[j],
    ) == writeback::result_of(s, parse::cells_of(s)[j]) by {
        let i = j - k - 1;
        assert(blocks[j] == layout::moved_block(own[i], pe));
        assert(again[j] == layout::moved_block(own[i], by));
        assert(pe < texts.len()) by {
            if pe == texts.len() {
                assert(lines::line_texts(u).len() == 0);
                layout::lemma_blocks_ahead_after(Seq::empty(), lines::line_texts(u), old);
                assert(own.len() == 0);
            }
        }
        lemma_cells_ahead(a, u, old, i);
        lemma_cells_ahead(head, u, old, i);
        assert(t.len() - s.len() == head.len() - q);
        lemma_moved_twice(parse::cell_of(u, own[i]), q, head.len() as int);
    }
}

/// The result of a cell is the same wherever the part of the document that holds it stands.
proof fn lemma_result_moved(a: Seq<char>, u: Seq<char>, i: int)
    requires
        0 <= i < parse::cells_of(u).len(),
    ensures
        writeback::result_of(a + u, moved_cell(parse::cells_of(u)[i], a.len() as int))
            == writeback::result_of(u, parse::cells_of(u)[i]),
{
    writeback::lemma_cell_positions(u, i);
    match parse::cells_of(u)[i].result_span {
        Some((start, end)) => {
            lemma_part_moved(a, u, start, end);
        },
        None => {},
    }
}

proof fn lemma_moved_twice(cell: CellModel, a: int, b: int)
    ensures
        moved_cell(moved_cell(cell, a), b - a) == moved_cell(cell, b),
{
}

/// Whether what is read after the `j`-th cell of `s` is decided before the `k`-th cell
/// begins: its designating paragraph has ended, and a begin marker has its end marker.
pub open spec fn is_settled(s: Seq<char>, j: int, k: int) -> bool {
    let texts = lines::line_texts(s);
    let blocks = parse::shell_blocks(texts, 0);
    let from = parse::line_after(texts, blocks[j].close);
    let begin = parse::result_line(texts, from);
    let line = blocks[k].open;
    &&& parse::has_paragraph(texts, from) ==> parse::paragraph_end(
        texts,
        parse::after_blanks(texts, from),
    ) <= line
    &&& begin < line && parse::begins_result(texts[begin]) ==> (parse::result_block(
        texts,
        from,
    ) matches Some((_, end)) && end < line)
}

/// A line that opens a fence is not blank.
proof fn lemma_opening_not_blank(line: Seq<char>)
    requires
        fence::opening(line) is Some,
    ensures
        !parse::is_blank(line),
{
    text::lemma_leading(line, ' ');
    let n = text::leading(line, ' ') as int;
    let rest = line.skip(n);
    assert(line[n] == rest[0]);
    text::lemma_leading_space(line);
    let start = text::trim_start(line);
    let skipped = text::leading_space(line) as int;
    if skipped > n {
        assert(text::is_white_space(line[n]));
    }
    text::lemma_trailing_space(start);
    if text::trailing_space(start) == start.len() {
        assert(start[n - skipped] == line[n]);
        assert(text::is_white_space(start[n - skipped]));
    }
}

/// An end marker that stands before line `to` does not depend on what comes after it.
proof fn lemma_end_marker_shared(a: Seq<Seq<char>>, b: Seq<Seq<char>>, from: int, to: int)
    requires
        0 <= from <= to <= a.len(),
        to <= b.len(),
        a.take(to) == b.take(to),
        parse::end_marker_line(a, from) matches Some(e) && e < to,
    ensures
        parse::end_marker_line(b, from) == parse::end_marker_line(a, from),
    decreases to - from,
{
    parse::lemma_end_marker_line(a, from);
    if from < to {
        assert(a.take(to)[from] == b.take(to)[from]);
        match fence::opening(a[from]) {
            Some(f) => {
                let close = fence::closing_line(a, from + 1, f);
                parse::lemma_closing_line(a, from + 1, f);
                let next = parse::line_after(a, close);
                parse::lemma_end_marker_line(a, next);
                if close is None {
                    assert(parse::end_marker_line(a, a.len() as int) is None);
                }
                layout::lemma_closing_line_shared(a, b, from + 1, to, f);
                lemma_end_marker_shared(a, b, next, to);
            },
            None => {
                if !parse::ends_result(a[from]) {
                    lemma_end_marker_shared(a, b, from + 1, to);
                }
            },
        }
    }
}

/// Blank lines that end before line `line` end there whatever comes after it.
proof fn lemma_blanks_shared(a: Seq<Seq<char>>, b: Seq<Seq<char>>, from: int, line: int)
    requires
        0 <= from <= line < a.len(),
        line < b.len(),
        a.take(line + 1) == b.take(line + 1),
        !parse::is_blank(a[line]),
    ensures
        from <= parse::after_blanks(a, from) <= line,
        parse::after_blanks(b, from) == parse::after_blanks(a, from),
{
    parse::lemma_after_blanks(a, from);
    let at = parse::after_blanks(a, from);
    if at > line {
        assert(parse::is_blank(a[line]));
    }
    assert forall|i: int| from <= i < at implies parse::is_blank(#[trigger] b[i]) by {
        assert(a.take(line + 1)[i] == b.take(line + 1)[i]);
        assert(parse::is_blank(a[i]));
    }
    assert(a.take(line + 1)[at] == b.take(line + 1)[at]);
    writeback::lemma_after_blanks_is(b, from, at);
}

/// What is read after a block that is decided before line `line` does not depend on what comes
/// after that line.
proof fn lemma_trailer_shared(a: Seq<Seq<char>>, b: Seq<Seq<char>>, from: int, line: int)
    requires
        0 <= from <= line < a.len(),
        line < b.len(),
        a.take(line + 1) == b.take(line + 1),
        fence::opening(a[line]) is Some,
        parse::has_paragraph(a, from) ==> parse::paragraph_end(a, parse::after_blanks(a, from))
            <= line,
        parse::result_line(a, from) < line && parse::begins_result(a[parse::result_line(a, from)])
            ==> (parse::result_block(a, from) matches Some((_, end)) && end < line),
    ensures
        parse::after_blanks(b, from) == parse::after_blanks(a, from),
        parse::has_paragraph(b, from) == parse::has_paragraph(a, from),
        parse::has_paragraph(a, from) ==> {
            let first = parse::after_blanks(a, from);
            let end = parse::paragraph_end(a, first);
            &&& parse::paragraph_end(b, first) == end
            &&& from <= first < end < line
        },
        parse::result_line(b, from) == parse::result_line(a, from),
        from <= parse::result_line(a, from) <= line,
        parse::result_block(b, from) == parse::result_block(a, from),
        parse::result_block(a, from) matches Some((begin, end)) ==> from <= begin < end < line,
{
    lemma_opening_not_blank(a[line]);
    lemma_blanks_shared(a, b, from, line);
    let first = parse::after_blanks(a, from);
    assert(a.take(line + 1)[first] == b.take(line + 1)[first]);
    if parse::has_paragraph(a, from) {
        let end = parse::paragraph_end(a, first);
        parse::lemma_after_blanks(a, from);
        parse::lemma_paragraph_end(a, first);
        if parse::begins_result(a[line]) {
            parse::lemma_begin_line(a[line]);
        }
        assert forall|i: int| first <= i < end implies !parse::is_blank(#[trigger] b[i])
            && !parse::begins_result(b[i]) by {
            assert(a.take(line + 1)[i] == b.take(line + 1)[i]);
            assert(!parse::is_blank(a[i]) && !parse::begins_result(a[i]));
        }
        assert(a.take(line + 1)[end] == b.take(line + 1)[end]);
        writeback::lemma_paragraph_end_is(b, first, end);
        lemma_blanks_shared(a, b, end, line);
    }
    let begin = parse::result_line(a, from);
    assert(a.take(line + 1)[begin] == b.take(line + 1)[begin]);
    if parse::begins_result(a[begin]) {
        parse::lemma_begin_line(a[begin]);
        assert(begin < line);
        assert(a.take(line) =~= a.take(line + 1).take(line));
        assert(b.take(line) =~= b.take(line + 1).take(line));
        parse::lemma_end_marker_line(a, begin + 1);
        lemma_end_marker_shared(a, b, begin + 1, line);
    }
}

/// Two blocks of a document: the first is closed before the second is opened.
proof fn lemma_blocks_follow(texts: Seq<Seq<char>>, j: int, k: int)
    requires
        0 <= j < k < parse::shell_blocks(texts, 0).len(),
    ensures
        ({
            let blocks = parse::shell_blocks(texts, 0);
            blocks[j].close matches Some(d) && blocks[j].open < d < blocks[k].open
        }),
{
    let blocks = parse::shell_blocks(texts, 0);
    layout::lemma_block(texts, 0, j);
    match blocks[j].close {
        Some(d) => {
            layout::lemma_collected_blocks(texts, 0, d + 1);
            assert(blocks[k] == parse::shell_blocks(texts, d + 1)[k - j - 1]);
            layout::lemma_block(texts, d + 1, k - j - 1);
        },
        None => {
            layout::lemma_open_block_is_last(texts, 0, j);
        },
    }
}

/// Whether two texts are the same up to the start of line `line`, and that line is the same.
spec fn same_up_to(s: Seq<char>, t: Seq<char>, line: int) -> bool {
    let spans = lines::lines_of(s);
    let again = lines::lines_of(t);
    &&& 0 <= line < lines::line_texts(s).len()
    &&& line < lines::line_texts(t).len()
    &&& lines::line_texts(t).take(line + 1) == lines::line_texts(s).take(line + 1)
    &&& forall|i: int| 0 <= i <= line ==> (#[trigger] again[i]).start == spans[i].start
    &&& forall|i: int| 0 <= i < line ==> (#[trigger] again[i]).end == spans[i].end
    &&& spans[line].start <= t.len()
    &&& t.take(spans[line].start) == s.take(spans[line].start)
}

/// An earlier cell stays the same in a text that is the same up to a later one.
proof fn lemma_earlier_cell(s: Seq<char>, t: Seq<char>, j: int, k: int)
    requires
        0 <= j < k < parse::shell_blocks(lines::line_texts(s), 0).len(),
        same_up_to(s, t, parse::shell_blocks(lines::line_texts(s), 0)[k].open),
    ensures
        ({
            let b = parse::shell_blocks(lines::line_texts(s), 0)[j];
            let was = parse::cell_of(s, b);
            let is = parse::cell_of(t, b);
            &&& is.lang == was.lang
            &&& is.command == was.command
            &&& is_settled(s, j, k) ==> is == was && writeback::result_of(t, is)
                == writeback::result_of(s, was)
        }),
{
    let texts = lines::line_texts(s);
    let spans = lines::lines_of(s);
    let blocks = parse::shell_blocks(texts, 0);
    let b = blocks[j];
    let line = blocks[k].open;
    layout::lemma_block(texts, 0, k);
    layout::lemma_block(texts, 0, j);
    lemma_blocks_follow(texts, j, k);
    let d = b.close->0;
    lines::lemma_lines_from(s, 0);
    let all = lines::lines_of(t);
    let p = spans[line].start;
    assert(all[b.open].end == spans[b.open].end);
    assert(all[d].start == spans[d].start && all[d].end == spans[d].end);
    assert(spans[b.open].end <= spans[d].start);
    assert(spans[d].end <= p);
    lemma_part_shared(s, t, p, spans[b.open].end, spans[d].start);
    if is_settled(s, j, k) {
        let after = lines::line_texts(t);
        lemma_trailer_shared(texts, after, d + 1, line);
        if parse::has_paragraph(texts, d + 1) {
            let first = parse::after_blanks(texts, d + 1);
            let end = parse::paragraph_end(texts, first);
            assert(all[first].start == spans[first].start);
            assert(all[end - 1].end == spans[end - 1].end);
            assert(spans[end - 1].end <= p);
            assert(spans[first].start <= spans[end - 1].end) by {
                if first < end - 1 {
                    assert(spans[first].end <= spans[end - 1].start);
                }
            }
            lemma_part_shared(s, t, p, spans[first].start, spans[end - 1].end);
        }
        if parse::result_block(texts, d + 1) is Some {
            let (begin, end) = parse::result_block(texts, d + 1)->0;
            assert(all[begin].start == spans[begin].start);
            assert(all[end].end == spans[end].end);
            assert(spans[begin].end <= spans[end].start);
            assert(spans[end].end <= p);
            lemma_part_shared(s, t, p, spans[begin].start, spans[end].end);
        }
    }
}

/// The text that leads up to a result is the same up to the cell it belongs to.
proof fn lemma_same_up_to_result(s: Seq<char>, k: int, g: Seq<char>, y: Seq<char>)
    requires
        0 <= k < parse::shell_blocks(lines::line_texts(s), 0).len(),
        parse::shell_blocks(lines::line_texts(s), 0)[k].close matches Some(c)
            && writeback::leads_up(s, c, g),
    ensures
        same_up_to(s, g + y, parse::shell_blocks(lines::line_texts(s), 0)[k].open),
{
    let texts = lines::line_texts(s);
    let spans = lines::lines_of(s);
    let b = parse::shell_blocks(texts, 0)[k];
    let c = b.close->0;
    let t = g + y;
    layout::lemma_block(texts, 0, k);
    lines::lemma_lines_concat(g, y);
    lines::lemma_lines_from(s, 0);
    let line = b.open;
    let after = lines::line_texts(t);
    assert(after.take(line + 1) =~= lines::line_texts(g).take(c + 1).take(line + 1));
    assert(texts.take(line + 1) =~= texts.take(c + 1).take(line + 1));
    let kept = lines::lines_of(g);
    let all = lines::lines_of(t);
    assert forall|i: int| 0 <= i <= line implies #[trigger] all[i] == kept[i] by {}
    assert forall|i: int| 0 <= i <= line implies (#[trigger] all[i]).start == spans[i].start by {
        assert(kept[i].start == spans[i].start);
    }
    assert forall|i: int| 0 <= i < line implies (#[trigger] all[i]).end == spans[i].end by {
        assert(kept[i].end == spans[i].end);
    }
    let p = spans[c].start;
    assert(spans[line].start <= p) by {
        assert(spans[line].end <= spans[c].start);
    }
    assert(t.take(spans[line].start) =~= g.take(p).take(spans[line].start));
    assert(s.take(spans[line].start) =~= s.take(p).take(spans[line].start));
}

/// A document whose last fence was closed is the same up to the cell of that fence, and what is
/// settled before that cell stays so.
proof fn lemma_same_up_to_completed(s: Seq<char>, k: int)
    requires
        0 <= k < parse::cells_of(s).len(),
        !writeback::is_closed(s, k),
    ensures
        same_up_to(
            s,
            writeback::completed(s, k),
            parse::shell_blocks(lines::line_texts(s), 0)[k].open,
        ),
        forall|j: int|
            0 <= j < k && #[trigger] is_settled(s, j, k) ==> is_settled(
                writeback::completed(s, k),
                j,
                k,
            ),
        forall|region: Seq<char>| #[trigger]
            leaves_alone(s, k, region) ==> leaves_alone(writeback::completed(s, k), k, region),
{
    let texts = lines::line_texts(s);
    let spans = lines::lines_of(s);
    let blocks = parse::shell_blocks(texts, 0);
    let line = blocks[k].open;
    let t = writeback::completed(s, k);
    let after = lines::line_texts(t);
    let again = parse::shell_blocks(after, 0);
    writeback::lemma_completed_lines(s, k);
    writeback::lemma_completed(s, k);
    layout::lemma_block(texts, 0, k);
    lines::lemma_lines_from(s, 0);
    assert(after.take(line + 1) =~= texts.take(line + 1));
    assert(t.take(spans[line].start) =~= s.take(spans[line].start));
    assert forall|j: int| 0 <= j < k && #[trigger] is_settled(s, j, k) implies is_settled(
        t,
        j,
        k,
    ) by {
        assert(again[j] == blocks[j]);
        assert(again[k].open == line);
        layout::lemma_block(texts, 0, j);
        lemma_blocks_follow(texts, j, k);
        lemma_trailer_shared(texts, after, blocks[j].close->0 + 1, line);
        let begin = parse::result_line(texts, blocks[j].close->0 + 1);
        assert(after.take(line + 1)[begin] == texts.take(line + 1)[begin]);
    }
    let n = texts.len() as int;
    assert(again[k].close == Some(n));
    assert(parse::result_block(after, n + 1) is None);
    assert(place(after, n) == n + 1);
    assert forall|region: Seq<char>| #[trigger] leaves_alone(s, k, region) implies leaves_alone(
        t,
        k,
        region,
    ) by {
        let rest = after.skip(n + 1);
        let new = reading_of(region, Reading::Outside);
        assert(rest.len() == 0);
        layout::lemma_blocks_ahead_after(Seq::empty(), rest, new);
        assert(layout::blocks_ahead(rest, 0, new) =~= Seq::empty());
        assert(layout::blocks_ahead(rest, 0, Reading::Outside) =~= Seq::empty());
    }
}

proof fn lemma_part_shared(s: Seq<char>, t: Seq<char>, p: int, from: int, to: int)
    requires
        0 <= from <= to <= p <= s.len(),
        p <= t.len(),
        t.take(p) == s.take(p),
    ensures
        t.subrange(from, to) == s.subrange(from, to),
{
    assert(t.subrange(from, to) =~= t.take(p).subrange(from, to));
    assert(s.subrange(from, to) =~= s.take(p).subrange(from, to));
}

/// Writing the result of a cell whose fence is closed leaves the other cells as they are.
proof fn lemma_other_cells_of_closed_cell(s: Seq<char>, k: int, region: Seq<char>)
    requires
        writeback::is_closed(s, k),
        writeback::is_result_block(region),
        leaves_alone(s, k, region),
    ensures
        ({
            let cells = parse::cells_of(s);
            let t = writeback::with_result(s, cells[k], region);
            let again = parse::cells_of(t);
            &&& again.len() == cells.len()
            &&& forall|j: int|
                0 <= j < cells.len() ==> (#[trigger] again[j]).lang == cells[j].lang
                    && again[j].command == cells[j].command
            &&& forall|j: int|
                k < j < cells.len() ==> #[trigger] again[j] == moved_cell(
                    cells[j],
                    t.len() - s.len(),
                ) && writeback::result_of(t, again[j]) == writeback::result_of(s, cells[j])
            &&& forall|j: int|
                0 <= j < k && is_settled(s, j, k) ==> #[trigger] again[j] == cells[j]
                    && writeback::result_of(t, again[j]) == writeback::result_of(s, cells[j])
        }),
{
    let texts = lines::line_texts(s);
    let blocks = parse::shell_blocks(texts, 0);
    let cells = parse::cells_of(s);
    let cell = cells[k];
    assert(cell == parse::cell_of(s, blocks[k]));
    let g = writeback::before_result(s, cell);
    let w = writeback::after_result(s, cell);
    let t = writeback::with_result(s, cell, region);
    let again = parse::cells_of(t);
    lemma_cells_after_result(s, k, region);
    writeback::law_written_result_is_found(s, k, region);
    if cell.result_span is Some {
        writeback::lemma_leads_up_to_existing(s, k);
    } else {
        writeback::lemma_leads_up_to_inserted(s, k);
    }
    assert(t =~= g + (region + w));
    lemma_same_up_to_result(s, k, g, region + w);
    let found = parse::shell_blocks(lines::line_texts(t), 0);
    assert forall|j: int| 0 <= j < k implies (#[trigger] again[j]).lang == cells[j].lang
        && again[j].command == cells[j].command && (is_settled(s, j, k) ==> again[j]
        == cells[j] && writeback::result_of(t, again[j]) == writeback::result_of(s, cells[j])) by {
        assert(found.take(k + 1)[j] == blocks.take(k + 1)[j]);
        lemma_earlier_cell(s, t, j, k);
    }
}

/// Writing the result of one cell leaves the other cells as they are. The cells after it only
/// move, and keep their results; a cell before it whose own result is settled does not change at
/// all; and every other cell keeps its language and command.
///
/// Left out is a cell that begins between the one that is written and its result, or in that
/// result; a result after which a reader has other cells ahead than before, because it closes a
/// fence or keeps one open; and what a begin marker without its end marker makes of the lines
/// after it.
pub proof fn law_other_cells_are_kept(s: Seq<char>, k: int, region: Seq<char>)
    requires
        0 <= k < parse::cells_of(s).len(),
        writeback::is_result_block(region),
        leaves_alone(s, k, region),
    ensures
        ({
            let cells = parse::cells_of(s);
            let t = writeback::with_result(s, cells[k], region);
            let again = parse::cells_of(t);
            &&& again.len() == cells.len()
            &&& forall|j: int|
                0 <= j < cells.len() && j != k ==> (#[trigger] again[j]).lang == cells[j].lang
                    && again[j].command == cells[j].command
            &&& forall|j: int|
                k < j < cells.len() ==> #[trigger] again[j] == moved_cell(
                    cells[j],
                    t.len() - s.len(),
                ) && writeback::result_of(t, again[j]) == writeback::result_of(s, cells[j])
            &&& forall|j: int|
                0 <= j < k && is_settled(s, j, k) ==> #[trigger] again[j] == cells[j]
                    && writeback::result_of(t, again[j]) == writeback::result_of(s, cells[j])
        }),
{
    if writeback::is_closed(s, k) {
        lemma_other_cells_of_closed_cell(s, k, region);
    } else {
        let cells = parse::cells_of(s);
        let blocks = parse::shell_blocks(lines::line_texts(s), 0);
        let c = writeback::completed(s, k);
        let closed = parse::cells_of(c);
        let found = parse::shell_blocks(lines::line_texts(c), 0);
        let t = writeback::with_result(s, cells[k], region);
        let again = parse::cells_of(t);
        writeback::lemma_completed(s, k);
        lemma_same_up_to_completed(s, k);
        lemma_other_cells_of_closed_cell(c, k, region);
        assert(t == writeback::with_result(c, closed[k], region));
        assert forall|j: int| 0 <= j < k implies (#[trigger] again[j]).lang == cells[j].lang
            && again[j].command == cells[j].command && (is_settled(s, j, k) ==> again[j]
            == cells[j] && writeback::result_of(t, again[j]) == writeback::result_of(s, cells[j])) by {
            assert(found[j] == blocks[j]);
            assert(closed[j] == parse::cell_of(c, blocks[j]));
            lemma_earlier_cell(s, c, j, k);
        }
    }
}

} // verus!
