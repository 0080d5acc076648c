//! How the blocks of a document depend on its lines: what stands in one part of a document
//! is found the same way wherever that part stands.

use vstd::prelude::*;

use crate::fence;
use crate::fence::FenceModel;
use crate::info;
use crate::parse;
use crate::parse::Block;
use crate::text;

verus! {

/// The block from line `open` to line `close`, when it is a shell block.
pub open spec fn shell_block(open: int, close: int, f: FenceModel) -> Seq<Block> {
    match info::shell_info(f.info) {
        Some(shell) => seq![Block { open, close: Some(close), fence: f, shell }],
        None => Seq::empty(),
    }
}

/// The shell blocks between lines `from` and `to`, when no block reaches past `to`.
pub open spec fn collected(lines: Seq<Seq<char>>, from: int, to: int) -> Option<Seq<Block>>
    decreases to - from,
{
    if from == to && 0 <= from <= lines.len() {
        Some(Seq::empty())
    } else if from < 0 || from > to || to > lines.len() {
        None
    } else {
        match fence::opening(lines[from]) {
            None => collected(lines, from + 1, to),
            Some(f) => match fence::closing_line(lines, from + 1, f) {
                Some(j) => if from < j < to {
                    match collected(lines, j + 1, to) {
                        Some(rest) => Some(shell_block(from, j, f) + rest),
                        None => None,
                    }
                } else {
                    None
                },
                None => None,
            },
        }
    }
}

/// The same block, `by` lines further on.
pub open spec fn moved_block(b: Block, by: int) -> Block {
    Block {
        open: b.open + by,
        close: match b.close {
            Some(j) => Some(j + by),
            None => None,
        },
        fence: b.fence,
        shell: b.shell,
    }
}

/// The same blocks, `by` lines further on.
pub open spec fn moved_blocks(blocks: Seq<Block>, by: int) -> Seq<Block> {
    blocks.map_values(|b: Block| moved_block(b, by))
}

/// A closing fence is found in the same place when lines are put before and after.
pub proof fn lemma_closing_line_around(
    before: Seq<Seq<char>>,
    lines: Seq<Seq<char>>,
    after: Seq<Seq<char>>,
    from: int,
    f: FenceModel,
)
    requires
        0 <= from <= lines.len(),
        fence::closing_line(lines, from, f) is Some || after.len() == 0,
    ensures
        fence::closing_line(before + lines + after, before.len() + from, f) == (
        match fence::closing_line(lines, from, f) {
            Some(j) => Some(before.len() + j),
            None => None,
        }),
    decreases lines.len() - from,
{
    let all = before + lines + after;
    if from < lines.len() {
        assert(all[before.len() + from] == lines[from]);
        if !fence::closing(lines[from], f) {
            lemma_closing_line_around(before, lines, after, from + 1, f);
        }
    }
}

/// A part of a document has the same blocks wherever it stands.
pub proof fn lemma_collected_around(
    before: Seq<Seq<char>>,
    lines: Seq<Seq<char>>,
    after: Seq<Seq<char>>,
    from: int,
    to: int,
)
    requires
        collected(lines, from, to) is Some,
    ensures
        collected(before + lines + after, before.len() + from, before.len() + to) == Some(
            moved_blocks(collected(lines, from, to)->0, before.len() as int),
        ),
    decreases to - from,
{
    let all = before + lines + after;
    let by = before.len() as int;
    if from == to {
        assert(moved_blocks(Seq::empty(), by) =~= Seq::empty());
    } else {
        assert(all[by + from] == lines[from]);
        match fence::opening(lines[from]) {
            None => {
                lemma_collected_around(before, lines, after, from + 1, to);
            },
            Some(f) => {
                lemma_closing_line_around(before, lines, after, from + 1, f);
                let j = fence::closing_line(lines, from + 1, f)->0;
                lemma_collected_around(before, lines, after, j + 1, to);
                let rest = collected(lines, j + 1, to)->0;
                assert(moved_blocks(shell_block(from, j, f) + rest, by) =~= shell_block(
                    by + from,
                    by + j,
                    f,
                ) + moved_blocks(rest, by));
            },
        }
    }
}

/// The blocks before a line do not depend on what comes after it.
pub proof fn lemma_collected_before(lines: Seq<Seq<char>>, from: int, to: int, rest: Seq<Seq<char>>)
    requires
        collected(lines, from, to) is Some,
    ensures
        collected(lines.take(to) + rest, from, to) == collected(lines, from, to),
    decreases to - from,
{
    let all = lines.take(to) + rest;
    if from < to {
        assert(all[from] == lines[from]);
        match fence::opening(lines[from]) {
            None => {
                lemma_collected_before(lines, from + 1, to, rest);
            },
            Some(f) => {
                let j = fence::closing_line(lines, from + 1, f)->0;
                assert(all.take(to) =~= lines.take(to));
                lemma_closing_line_shared(lines, all, from + 1, to, f);
                lemma_collected_before(lines, j + 1, to, rest);
            },
        }
    }
}

/// A closing fence that stands before line `to` does not depend on what comes after it.
pub proof fn lemma_closing_line_shared(
    a: Seq<Seq<char>>,
    b: Seq<Seq<char>>,
    from: int,
    to: int,
    f: FenceModel,
)
    requires
        0 <= from <= to <= a.len(),
        to <= b.len(),
        a.take(to) == b.take(to),
        fence::closing_line(a, from, f) matches Some(j) && j < to,
    ensures
        fence::closing_line(b, from, f) == fence::closing_line(a, from, f),
    decreases to - from,
{
    parse::lemma_closing_line(a, from, f);
    if from < to {
        assert(a.take(to)[from] == b.take(to)[from]);
        if !fence::closing(a[from], f) {
            lemma_closing_line_shared(a, b, from + 1, to, f);
        }
    }
}

/// The blocks of a document are those before a line, and then those after it.
pub proof fn lemma_collected_blocks(lines: Seq<Seq<char>>, from: int, to: int)
    requires
        collected(lines, from, to) is Some,
    ensures
        parse::shell_blocks(lines, from) == collected(lines, from, to)->0 + parse::shell_blocks(
            lines,
            to,
        ),
    decreases to - from,
{
    if from == to {
        assert(parse::shell_blocks(lines, from) =~= Seq::<Block>::empty() + parse::shell_blocks(
            lines,
            to,
        ));
    } else {
        match fence::opening(lines[from]) {
            None => {
                lemma_collected_blocks(lines, from + 1, to);
            },
            Some(f) => {
                let j = fence::closing_line(lines, from + 1, f)->0;
                lemma_collected_blocks(lines, j + 1, to);
                assert(parse::shell_blocks(lines, from) =~= shell_block(from, j, f)
                    + parse::shell_blocks(lines, j + 1));
            },
        }
    }
}

/// What a block of a document looks like, and what stands before its end.
pub proof fn lemma_block(lines: Seq<Seq<char>>, from: int, k: int)
    requires
        0 <= from <= lines.len(),
        0 <= k < parse::shell_blocks(lines, from).len(),
    ensures
        ({
            let b = parse::shell_blocks(lines, from)[k];
            &&& from <= b.open < lines.len()
            &&& fence::opening(lines[b.open]) == Some(b.fence)
            &&& info::shell_info(b.fence.info) == Some(b.shell)
            &&& b.close == fence::closing_line(lines, b.open + 1, b.fence)
            &&& b.close matches Some(c) ==> b.open < c < lines.len() && collected(
                lines,
                from,
                c + 1,
            ) == Some(parse::shell_blocks(lines, from).take(k + 1))
        }),
    decreases lines.len() - from,
{
    let blocks = parse::shell_blocks(lines, from);
    match fence::opening(lines[from]) {
        None => {
            lemma_block(lines, from + 1, k);
        },
        Some(f) => {
            parse::lemma_closing_line(lines, from + 1, f);
            let close = fence::closing_line(lines, from + 1, f);
            let next = parse::line_after(lines, close);
            let rest = parse::shell_blocks(lines, next);
            match info::shell_info(f.info) {
                Some(shell) => {
                    if k == 0 {
                        assert(blocks[0] == Block { open: from, close, fence: f, shell });
                        if close is Some {
                            let c = close->0;
                            assert(collected(lines, c + 1, c + 1) == Some(Seq::<Block>::empty()));
                            assert(shell_block(from, c, f) + Seq::<Block>::empty() =~= blocks.take(
                                1,
                            ));
                        }
                    } else {
                        assert(blocks[k] == rest[k - 1]);
                        lemma_block(lines, next, k - 1);
                        if blocks[k].close is Some {
                            let c = blocks[k].close->0;
                            assert(shell_block(from, close->0, f) + rest.take(k) =~= blocks.take(
                                k + 1,
                            ));
                        }
                    }
                },
                None => {
                    lemma_block(lines, next, k);
                    if blocks[k].close is Some {
                        assert(shell_block(from, close->0, f) + rest.take(k + 1) =~= blocks.take(
                            k + 1,
                        ));
                    }
                },
            }
        },
    }
}

/// The blocks of the last part of a document do not depend on what stands before it.
pub proof fn lemma_blocks_after(before: Seq<Seq<char>>, lines: Seq<Seq<char>>, from: int)
    requires
        0 <= from <= lines.len(),
    ensures
        parse::shell_blocks(before + lines, before.len() + from) == moved_blocks(
            parse::shell_blocks(lines, from),
            before.len() as int,
        ),
    decreases lines.len() - from,
{
    let all = before + lines;
    let by = before.len() as int;
    if from < lines.len() {
        assert(all[by + from] == lines[from]);
        match fence::opening(lines[from]) {
            None => {
                lemma_blocks_after(before, lines, from + 1);
            },
            Some(f) => {
                assert(before + lines + Seq::<Seq<char>>::empty() =~= all);
                lemma_closing_line_around(before, lines, Seq::empty(), from + 1, f);
                parse::lemma_closing_line(lines, from + 1, f);
                let close = fence::closing_line(lines, from + 1, f);
                let next = parse::line_after(lines, close);
                lemma_blocks_after(before, lines, next);
                assert(parse::shell_blocks(all, by + from) =~= moved_blocks(
                    parse::shell_blocks(lines, from),
                    by,
                ));
            },
        }
    } else {
        assert(parse::shell_blocks(all, by + from) =~= moved_blocks(
            parse::shell_blocks(lines, from),
            by,
        ));
    }
}

/// An end marker is found in the same place when lines are put before and after.
pub proof fn lemma_end_marker_around(
    before: Seq<Seq<char>>,
    lines: Seq<Seq<char>>,
    after: Seq<Seq<char>>,
    from: int,
)
    requires
        0 <= from <= lines.len(),
        parse::end_marker_line(lines, from) is Some || after.len() == 0,
    ensures
        parse::end_marker_line(before + lines + after, before.len() + from) == (
        match parse::end_marker_line(lines, from) {
            Some(j) => Some(before.len() + j),
            None => None,
        }),
    decreases lines.len() - from,
{
    let all = before + lines + after;
    let by = before.len() as int;
    if from < lines.len() {
        assert(all[by + from] == lines[from]);
        match fence::opening(lines[from]) {
            Some(f) => {
                let close = fence::closing_line(lines, from + 1, f);
                parse::lemma_closing_line(lines, from + 1, f);
                if close is None && after.len() > 0 {
                    assert(parse::end_marker_line(lines, lines.len() as int) is None);
                    assert(false);
                }
                lemma_closing_line_around(before, lines, after, from + 1, f);
                lemma_end_marker_around(before, lines, after, parse::line_after(lines, close));
            },
            None => {
                if !parse::ends_result(lines[from]) {
                    lemma_end_marker_around(before, lines, after, from + 1);
                }
            },
        }
    }
}

/// A block that is never closed is the last one.
pub proof fn lemma_open_block_is_last(lines: Seq<Seq<char>>, from: int, j: int)
    requires
        0 <= from <= lines.len(),
        0 <= j < parse::shell_blocks(lines, from).len(),
        parse::shell_blocks(lines, from)[j].close is None,
    ensures
        j == parse::shell_blocks(lines, from).len() - 1,
    decreases lines.len() - from,
{
    match fence::opening(lines[from]) {
        None => {
            lemma_open_block_is_last(lines, from + 1, j);
        },
        Some(f) => {
            parse::lemma_closing_line(lines, from + 1, f);
            let next = parse::line_after(lines, fence::closing_line(lines, from + 1, f));
            let rest = parse::shell_blocks(lines, next);
            if info::shell_info(f.info) is Some {
                if j > 0 {
                    assert(parse::shell_blocks(lines, from)[j] == rest[j - 1]);
                    lemma_open_block_is_last(lines, next, j - 1);
                }
            } else {
                lemma_open_block_is_last(lines, next, j);
            }
        },
    }
}

/// The blocks before a block are collected before its first line.
pub proof fn lemma_collected_up_to(lines: Seq<Seq<char>>, from: int, k: int)
    requires
        0 <= from <= lines.len(),
        0 <= k < parse::shell_blocks(lines, from).len(),
    ensures
        ({
            let blocks = parse::shell_blocks(lines, from);
            collected(lines, from, blocks[k].open) == Some(blocks.take(k))
        }),
    decreases lines.len() - from,
{
    let blocks = parse::shell_blocks(lines, from);
    lemma_block(lines, from, k);
    let open = blocks[k].open;
    match fence::opening(lines[from]) {
        None => {
            lemma_block(lines, from + 1, k);
            lemma_collected_up_to(lines, from + 1, k);
        },
        Some(f) => {
            let close = fence::closing_line(lines, from + 1, f);
            parse::lemma_closing_line(lines, from + 1, f);
            let next = parse::line_after(lines, close);
            let rest = parse::shell_blocks(lines, next);
            match info::shell_info(f.info) {
                Some(shell) => {
                    if k == 0 {
                        assert(blocks[0] == Block { open: from, close, fence: f, shell });
                        assert(blocks.take(0) =~= Seq::empty());
                    } else {
                        assert(blocks[k] == rest[k - 1]);
                        lemma_block(lines, next, k - 1);
                        lemma_collected_up_to(lines, next, k - 1);
                        assert(shell_block(from, close->0, f) + rest.take(k - 1) =~= blocks.take(
                            k,
                        ));
                    }
                },
                None => {
                    lemma_block(lines, next, k);
                    lemma_collected_up_to(lines, next, k);
                    assert(shell_block(from, close->0, f) + rest.take(k) =~= blocks.take(k));
                },
            }
        },
    }
}

/// A fence that is never closed is closed by a line that is added and closes it.
pub proof fn lemma_closed_by_added_line(
    lines: Seq<Seq<char>>,
    from: int,
    f: FenceModel,
    line: Seq<char>,
)
    requires
        0 <= from <= lines.len(),
        fence::closing_line(lines, from, f) is None,
        fence::closing(line, f),
    ensures
        fence::closing_line(lines.push(line), from, f) == Some(lines.len() as int),
    decreases lines.len() - from,
{
    let all = lines.push(line);
    if from < lines.len() {
        assert(all[from] == lines[from]);
        lemma_closed_by_added_line(lines, from + 1, f, line);
    } else {
        assert(all[from] == line);
    }
}

/// The blocks of a document whose last block is closed by a line that is added.
pub proof fn lemma_blocks_closed(lines: Seq<Seq<char>>, k: int, line: Seq<char>)
    requires
        0 <= k < parse::shell_blocks(lines, 0).len(),
        parse::shell_blocks(lines, 0)[k].close is None,
        fence::closing(line, parse::shell_blocks(lines, 0)[k].fence),
    ensures
        ({
            let blocks = parse::shell_blocks(lines, 0);
            &&& k == blocks.len() - 1
            &&& parse::shell_blocks(lines.push(line), 0) == blocks.take(k).push(
                Block { close: Some(lines.len() as int), ..blocks[k] },
            )
        }),
{
    let blocks = parse::shell_blocks(lines, 0);
    let all = lines.push(line);
    let b = blocks[k];
    lemma_open_block_is_last(lines, 0, k);
    lemma_block(lines, 0, k);
    lemma_collected_up_to(lines, 0, k);
    let rest = lines.skip(b.open).push(line);
    assert(all =~= lines.take(b.open) + rest);
    lemma_collected_before(lines, 0, b.open, rest);
    lemma_collected_blocks(all, 0, b.open);
    assert(all[b.open] == lines[b.open]);
    lemma_closed_by_added_line(lines, b.open + 1, b.fence, line);
    let last = Block { close: Some(lines.len() as int), ..b };
    assert(parse::shell_blocks(all, all.len() as int) =~= Seq::empty());
    assert(parse::shell_blocks(all, b.open) =~= seq![last]);
    assert(parse::shell_blocks(all, 0) =~= blocks.take(k).push(last));
}

/// Where a reader of a document stands after some of its lines.
pub enum Reading {
    /// Outside of all fences.
    Outside,
    /// Inside a fence that opens no cell.
    Inside(FenceModel),
    /// Somewhere after the first line of a cell.
    Cell,
}

/// Where a reader stands after one more line.
pub open spec fn line_read(now: Reading, line: Seq<char>) -> Reading {
    match now {
        Reading::Outside => match fence::opening(line) {
            Some(f) => if info::shell_info(f.info) is Some {
                Reading::Cell
            } else {
                Reading::Inside(f)
            },
            None => Reading::Outside,
        },
        Reading::Inside(f) => if fence::closing(line, f) {
            Reading::Outside
        } else {
            now
        },
        Reading::Cell => now,
    }
}

/// Where a reader who stands at `now` before line `from` stands before line `to`.
pub open spec fn reading(lines: Seq<Seq<char>>, from: int, to: int, now: Reading) -> Reading
    decreases to - from,
{
    if from >= to {
        now
    } else {
        reading(lines, from + 1, to, line_read(now, lines[from]))
    }
}

/// The line from which on a reader who stands at `now` before line `from` is outside of all
/// fences.
pub open spec fn line_outside(lines: Seq<Seq<char>>, from: int, now: Reading) -> int {
    match now {
        Reading::Inside(f) => parse::line_after(lines, fence::closing_line(lines, from, f)),
        _ => from,
    }
}

/// The shell blocks that a reader who stands at `now` before line `from` comes to.
pub open spec fn blocks_ahead(lines: Seq<Seq<char>>, from: int, now: Reading) -> Seq<Block> {
    parse::shell_blocks(lines, line_outside(lines, from, now))
}

/// Once a reader is in a cell, that is all that is known.
proof fn lemma_reading_in_cell(lines: Seq<Seq<char>>, from: int, to: int)
    ensures
        reading(lines, from, to, Reading::Cell) == Reading::Cell,
    decreases to - from,
{
    if from < to {
        lemma_reading_in_cell(lines, from + 1, to);
    }
}

/// A reader who comes to no cell has the same blocks ahead.
pub proof fn lemma_blocks_ahead(lines: Seq<Seq<char>>, from: int, to: int, now: Reading)
    requires
        0 <= from <= to <= lines.len(),
        !(reading(lines, from, to, now) is Cell),
    ensures
        blocks_ahead(lines, from, now) == blocks_ahead(lines, to, reading(lines, from, to, now)),
    decreases to - from,
{
    if from < to {
        let next = line_read(now, lines[from]);
        if next is Cell {
            lemma_reading_in_cell(lines, from + 1, to);
        }
        lemma_blocks_ahead(lines, from + 1, to, next);
    }
}

/// The same lines are read the same way wherever they stand.
pub proof fn lemma_reading_shared(
    a: Seq<Seq<char>>,
    b: Seq<Seq<char>>,
    from: int,
    to: int,
    by: int,
    now: Reading,
)
    requires
        forall|i: int| from <= i < to ==> #[trigger] a[i] == b[i + by],
    ensures
        reading(b, from + by, to + by, now) == reading(a, from, to, now),
    decreases to - from,
{
    if from < to {
        assert(a[from] == b[from + by]);
        lemma_reading_shared(a, b, from + 1, to, by, line_read(now, a[from]));
    }
}

/// The blocks ahead in the last part of a document do not depend on what stands before it.
pub proof fn lemma_blocks_ahead_after(before: Seq<Seq<char>>, lines: Seq<Seq<char>>, now: Reading)
    ensures
        0 <= line_outside(lines, 0, now) <= lines.len(),
        blocks_ahead(before + lines, before.len() as int, now) == moved_blocks(
            blocks_ahead(lines, 0, now),
            before.len() as int,
        ),
{
    let all = before + lines;
    match now {
        Reading::Inside(f) => {
            assert(before + lines + Seq::<Seq<char>>::empty() =~= all);
            lemma_closing_line_around(before, lines, Seq::empty(), 0, f);
            parse::lemma_closing_line(lines, 0, f);
        },
        _ => {},
    }
    lemma_blocks_after(before, lines, line_outside(lines, 0, now));
}

/// A fence that is closed is read up to the line that closes it.
proof fn lemma_fence_read(lines: Seq<Seq<char>>, from: int, to: int, f: FenceModel)
    requires
        0 <= from <= to <= lines.len(),
        fence::closing_line(lines, from, f) matches Some(j) && j < to,
    ensures
        reading(lines, from, to, Reading::Inside(f)) == reading(
            lines,
            fence::closing_line(lines, from, f)->0 + 1,
            to,
            Reading::Outside,
        ),
    decreases to - from,
{
    parse::lemma_closing_line(lines, from, f);
    if !fence::closing(lines[from], f) {
        lemma_fence_read(lines, from + 1, to, f);
    }
}

/// Lines that hold no cell, and no fence that is left open, are read from outside to outside.
pub proof fn lemma_collected_read(lines: Seq<Seq<char>>, from: int, to: int)
    requires
        collected(lines, from, to) == Some(Seq::<Block>::empty()),
    ensures
        reading(lines, from, to, Reading::Outside) == Reading::Outside,
    decreases to - from,
{
    if from < to {
        match fence::opening(lines[from]) {
            None => {
                lemma_collected_read(lines, from + 1, to);
            },
            Some(f) => {
                let j = fence::closing_line(lines, from + 1, f)->0;
                let rest = collected(lines, j + 1, to)->0;
                let all = shell_block(from, j, f) + rest;
                assert(all.len() == shell_block(from, j, f).len() + rest.len());
                assert(rest =~= Seq::empty());
                lemma_fence_read(lines, from + 1, to, f);
                lemma_collected_read(lines, j + 1, to);
            },
        }
    }
}

/// A fence that no line closes stays open.
pub proof fn lemma_open_fence_read(lines: Seq<Seq<char>>, from: int, to: int, f: FenceModel)
    requires
        forall|i: int| from <= i < to ==> !fence::closing(#[trigger] lines[i], f),
    ensures
        reading(lines, from, to, Reading::Inside(f)) == Reading::Inside(f),
    decreases to - from,
{
    if from < to {
        assert(!fence::closing(lines[from], f));
        lemma_open_fence_read(lines, from + 1, to, f);
    }
}

/// A fence has at least three characters.
pub open spec fn is_proper(now: Reading) -> bool {
    now matches Reading::Inside(f) ==> f.len >= 3
}

pub proof fn lemma_reading_proper(lines: Seq<Seq<char>>, from: int, to: int, now: Reading)
    requires
        is_proper(now),
    ensures
        is_proper(reading(lines, from, to, now)),
    decreases to - from,
{
    if from < to {
        lemma_reading_proper(lines, from + 1, to, line_read(now, lines[from]));
    }
}

/// An empty line changes nothing.
pub proof fn lemma_empty_line_read(line: Seq<char>, now: Reading)
    requires
        line.len() == 0,
        is_proper(now),
    ensures
        line_read(now, line) == now,
{
    match now {
        Reading::Inside(f) => {
            let rest = line.skip(text::leading(line, ' ') as int);
            text::lemma_leading(line, ' ');
            text::lemma_leading(rest, f.ch);
        },
        _ => {},
    }
}

} // verus!
