//! Writing results back: edits of a document, and applying them.

use vstd::prelude::*;
use vstd::slice::slice_subrange;

use crate::fence;
use crate::lines;
use crate::parse;
use crate::parse::{Cell, Document};
use crate::text;

verus! {

/// An edit that replaces part of a text.
#[derive(Debug, Clone, PartialEq, Eq)]
pub struct Edit {
    /// Byte offset at which the replaced part begins.
    pub start: usize,
    /// Byte offset at which it ends.
    pub end: usize,
    /// What takes its place.
    pub replacement: String,
}

/// An edit that replaces part of a text.
pub struct EditModel {
    pub start: int,
    pub end: int,
    pub replacement: Seq<char>,
}

impl View for Edit {
    type V = EditModel;

    open spec fn view(&self) -> EditModel {
        EditModel {
            start: self.start as int,
            end: self.end as int,
            replacement: self.replacement@,
        }
    }
}

/// Last position, not after `from`, at which `pattern` is found in `s`; the length of `s`
/// when it is found nowhere.
pub open spec fn last_occurrence(s: Seq<char>, pattern: Seq<char>, from: int) -> int
    decreases from + 1,
{
    if from < 0 {
        s.len() as int
    } else if text::occurs_at(s, pattern, from) {
        from
    } else {
        last_occurrence(s, pattern, from - 1)
    }
}

/// What stands between the markers of a result block: from its second line to its last end
/// marker, without the line breaks around it.
pub open spec fn block_body(block: Seq<char>) -> Seq<char> {
    let first_break = text::find_from(block, '\n', 0);
    let start = if first_break < block.len() {
        first_break + 1
    } else {
        block.len() as int
    };
    let marker = last_occurrence(block, parse::END_MARKER@, block.len() as int);
    let end = if marker < start {
        start
    } else {
        marker
    };
    text::trim_char(block.subrange(start, end), '\n')
}

/// Whether two byte offsets of `s` delimit a part of it.
pub open spec fn valid_range(s: Seq<char>, start: int, end: int) -> bool {
    start <= end && text::on_boundary(s, start) && text::on_boundary(s, end)
}

/// The fence that closes a block, when the block opens one and does not close it; empty otherwise.
pub open spec fn missing_fence(block: Seq<char>) -> Seq<char> {
    let texts = lines::line_texts(block);
    if texts.len() == 0 {
        Seq::empty()
    } else {
        match fence::opening(texts[0]) {
            Some(f) => if fence::closing_line(texts, 1, f) is None {
                Seq::new(f.len, |i: int| f.ch)
            } else {
                Seq::empty()
            },
            None => Seq::empty(),
        }
    }
}

/// The fence that closes the block between two byte offsets of `s`, when it is missing.
pub open spec fn missing_between(s: Seq<char>, start: int, end: int) -> Seq<char> {
    if valid_range(s, start, end) {
        missing_fence(text::byte_slice(s, start, end))
    } else {
        Seq::empty()
    }
}

/// What has to follow `before` so that it ends with `fence` on a line of its own; nothing when
/// there is no fence.
pub open spec fn closing_text(before: Seq<char>, fence: Seq<char>) -> Seq<char> {
    if fence.len() == 0 {
        Seq::empty()
    } else if before.len() > 0 && before.last() != '\n' {
        seq!['\n'] + fence + seq!['\n']
    } else {
        fence + seq!['\n']
    }
}

/// What is inserted at byte offset `at` of `s` to put `region` there: the fence that the block
/// before it is missing, a blank line that keeps it apart from what stands before it, and a line
/// break that keeps it apart from what stands after it.
pub open spec fn spaced(s: Seq<char>, at: int, fence: Seq<char>, region: Seq<char>) -> Seq<char> {
    let before = text::byte_slice(s, 0, at);
    let after = text::byte_slice(s, at, text::byte_len(s) as int);
    let closing = closing_text(before, fence);
    let head = if text::finishes_with(before + closing, seq!['\n', '\n']) {
        Seq::empty()
    } else {
        seq!['\n']
    };
    let tail = if after.len() > 0 && after[0] != '\n' {
        seq!['\n']
    } else {
        Seq::empty()
    };
    closing + head + region + tail
}

pub proof fn lemma_last_occurrence(s: Seq<char>, pattern: Seq<char>, from: int)
    requires
        from <= s.len(),
    ensures
        0 <= last_occurrence(s, pattern, from) <= s.len(),
        from >= 0 && last_occurrence(s, pattern, from) < s.len() ==> text::occurs_at(
            s,
            pattern,
            last_occurrence(s, pattern, from),
        ),
    decreases from + 1,
{
    if from >= 0 && !text::occurs_at(s, pattern, from) {
        lemma_last_occurrence(s, pattern, from - 1);
    }
}

/// Finds the last occurrence of `pattern`.
fn find_last(s: &[char], pattern: &[char]) -> (at: usize)
    ensures
        at == last_occurrence(s@, pattern@, s@.len() as int),
        at <= s@.len(),
{
    let mut at: usize = s.len();
    loop
        invariant
            at <= s@.len(),
            last_occurrence(s@, pattern@, at as int) == last_occurrence(
                s@,
                pattern@,
                s@.len() as int,
            ),
        decreases at,
    {
        if text::found_at(s, pattern, at) {
            return at;
        }
        if at == 0 {
            assert(last_occurrence(s@, pattern@, -1) == s@.len());
            return s.len();
        }
        at -= 1;
    }
}

impl Document {
    /// The result of the last run of a cell: its result block without the markers.
    pub fn result_text(&self, cell: &Cell) -> (result: Option<&str>)
        requires
            cell.result_span matches Some((start, end)) ==> valid_range(
                self.text@,
                start as int,
                end as int,
            ),
        ensures
            result is Some <==> cell.result_span is Some,
            cell.result_span matches Some((start, end)) ==> result->0@ == block_body(
                text::byte_slice(self.text@, start as int, end as int),
            ),
    {
        let (start, end) = match cell.result_span {
            Some(span) => span,
            None => {
                return None;
            },
        };
        let block = text::cut(self.text.as_str(), start, end);
        let chars = text::to_chars(block);
        let marker = text::to_chars(parse::END_MARKER);
        let first_break = text::find_char(chars.as_slice(), '\n', 0);
        let body_start: usize = if first_break < chars.len() {
            first_break + 1
        } else {
            chars.len()
        };
        let last = find_last(chars.as_slice(), marker.as_slice());
        let body_end: usize = if last < body_start {
            body_start
        } else {
            last
        };
        let body = slice_subrange(chars.as_slice(), body_start, body_end);
        let lead = text::count_leading(body, '\n');
        let part = text::without_surrounding(body, '\n');
        proof {
            text::lemma_trailing(body@.skip(lead as int), '\n');
            assert(part@ =~= block@.subrange(body_start + lead, body_start + lead + part@.len()));
        }
        Some(block.substring_char(body_start + lead, body_start + lead + part.len()))
    }

    /// The edit that puts `region` in the place of the result block of a cell, or inserts it
    /// when there is none. `region` is a whole result block, its last line break included.
    ///
    /// A fence that the document leaves open is closed first: inside of it, the result would be
    /// taken for a part of the command.
    pub fn result_edit(&self, cell: &Cell, region: &str) -> (edit: Edit)
        requires
            cell.result_span is None ==> text::on_boundary(self.text@, cell.insert_at as int),
        ensures
            match cell.result_span {
                Some((start, end)) => edit.start == start && edit.end == end
                    && edit.replacement@ == region@,
                None => edit.start == cell.insert_at && edit.end == cell.insert_at
                    && edit.replacement@ == spaced(
                    self.text@,
                    cell.insert_at as int,
                    missing_between(
                        self.text@,
                        cell.fence_start as int,
                        cell.insert_at as int,
                    ),
                    region@,
                ),
            },
    {
        match cell.result_span {
            Some((start, end)) => Edit { start, end, replacement: region.to_owned() },
            None => {
                let at = cell.insert_at;
                let total = self.text.as_str().as_bytes().len();
                proof {
                    let i = text::lemma_boundary_has_position(self.text@, at as int);
                    text::lemma_byte_pos_monotone(self.text@, i, self.text@.len() as int);
                    text::lemma_byte_pos_ends(self.text@);
                    text::lemma_byte_pos_on_boundary(self.text@, 0);
                    text::lemma_byte_pos_on_boundary(self.text@, self.text@.len() as int);
                }
                let fence = find_missing_fence(self.text.as_str(), cell.fence_start, at);
                let mut whole = text::to_chars(text::cut(self.text.as_str(), 0, at));
                let ghost before = whole@;
                let mut replacement = String::new();
                if fence.len() > 0 {
                    let n = whole.len();
                    if n > 0 && whole[n - 1] != '\n' {
                        whole.push('\n');
                        replacement.push('\n');
                    }
                    let marks = text::to_text(fence.as_slice());
                    replacement.append(marks.as_str());
                    replacement.push('\n');
                    let mut line = fence;
                    whole.append(&mut line);
                    whole.push('\n');
                }
                proof {
                    let missing = missing_between(
                        self.text@,
                        cell.fence_start as int,
                        at as int,
                    );
                    assert(replacement@ =~= closing_text(before, missing));
                    assert(whole@ =~= before + closing_text(before, missing));
                }
                let after = text::to_chars(text::cut(self.text.as_str(), at, total));
                let n = whole.len();
                let apart = n >= 2 && whole[n - 1] == '\n' && whole[n - 2] == '\n';
                proof {
                    if n >= 2 {
                        let end = whole@.skip(n - 2);
                        assert(end.len() == 2);
                        assert(end[0] == whole@[n - 2] && end[1] == whole@[n - 1]);
                        assert(apart ==> end =~= seq!['\n', '\n']);
                    }
                }
                if !apart {
                    replacement.push('\n');
                }
                replacement.append(region);
                if after.len() > 0 && after[0] != '\n' {
                    replacement.push('\n');
                }
                assert(replacement@ =~= spaced(
                    self.text@,
                    at as int,
                    missing_between(self.text@, cell.fence_start as int, at as int),
                    region@,
                ));
                Edit { start: at, end: at, replacement }
            },
        }
    }
}

/// The fence that closes the block between two byte offsets of a text, when it is missing.
fn find_missing_fence(text: &str, start: usize, end: usize) -> (fence: Vec<char>)
    ensures
        fence@ == missing_between(text@, start as int, end as int),
{
    let mut fence: Vec<char> = Vec::new();
    if start > end || !text.is_char_boundary(start) || !text.is_char_boundary(end) {
        return fence;
    }
    let block = text::cut(text, start, end);
    let size = block.as_bytes().len();
    assert(size == text::byte_len(block@));
    let chars = text::to_chars(block);
    let lines = lines::split_lines(chars.as_slice());
    if lines.len() == 0 {
        return fence;
    }
    assert(lines@[0].describes(block@, lines::lines_of(block@)[0]));
    assert(lines@[0].text@ == lines::line_texts(block@)[0]);
    match fence::open_fence(lines[0].text) {
        Some(f) => {
            if parse::find_closing_line(&lines, 1, &f, Ghost(block@)).is_none() {
                for i in 0..f.len
                    invariant
                        fence@ == Seq::new(i as nat, |j: int| f.ch),
                {
                    fence.push(f.ch);
                    assert(fence@ =~= Seq::new((i + 1) as nat, |j: int| f.ch));
                }
            }
        },
        None => {},
    }
    fence
}

/// `edits` with `edit` put after all that do not start later, where `edits` is in the order
/// of their starts.
pub open spec fn put_in_order(edits: Seq<EditModel>, edit: EditModel) -> Seq<EditModel>
    decreases edits.len(),
{
    if edits.len() > 0 && edits.last().start > edit.start {
        put_in_order(edits.drop_last(), edit).push(edits.last())
    } else {
        edits.push(edit)
    }
}

/// `edits` in the order of their starts; those with the same start keep their order.
pub open spec fn in_order(edits: Seq<EditModel>) -> Seq<EditModel>
    decreases edits.len(),
{
    if edits.len() == 0 {
        edits
    } else {
        put_in_order(in_order(edits.drop_last()), edits.last())
    }
}

/// Whether the edits, taken in turn from byte offset `pos` of `s` on, all stand at character
/// boundaries. An edit that starts before the end of the one before it is left out.
pub open spec fn applicable(s: Seq<char>, edits: Seq<EditModel>, pos: int) -> bool
    decreases edits.len(),
{
    if edits.len() == 0 {
        true
    } else if edits[0].start < pos {
        applicable(s, edits.drop_first(), pos)
    } else {
        text::on_boundary(s, edits[0].start) && text::on_boundary(s, edits[0].end) && applicable(
            s,
            edits.drop_first(),
            edits[0].end,
        )
    }
}

/// The text `s` from byte offset `pos` on, with the edits applied in turn.
pub open spec fn applied(s: Seq<char>, edits: Seq<EditModel>, pos: int) -> Seq<char>
    decreases edits.len(),
{
    if edits.len() == 0 {
        text::byte_slice(s, pos, text::byte_len(s) as int)
    } else if edits[0].start < pos {
        applied(s, edits.drop_first(), pos)
    } else {
        text::byte_slice(s, pos, edits[0].start) + edits[0].replacement + applied(
            s,
            edits.drop_first(),
            edits[0].end,
        )
    }
}

/// The models of a list of edits.
pub open spec fn models(edits: Seq<Edit>) -> Seq<EditModel> {
    edits.map_values(|e: Edit| e@)
}

/// The edits at the given places of a list.
pub open spec fn picked(edits: Seq<EditModel>, order: Seq<usize>) -> Seq<EditModel> {
    order.map_values(|i: usize| edits[i as int])
}

proof fn lemma_put_in_order(edits: Seq<EditModel>, edit: EditModel, at: int)
    requires
        0 <= at <= edits.len(),
        at > 0 ==> edits[at - 1].start <= edit.start,
        forall|i: int| at <= i < edits.len() ==> edits[i].start > edit.start,
    ensures
        put_in_order(edits, edit) == edits.insert(at, edit),
    decreases edits.len(),
{
    if at < edits.len() {
        assert(edits[edits.len() - 1].start > edit.start);
        lemma_put_in_order(edits.drop_last(), edit, at);
        assert(edits.drop_last().insert(at, edit).push(edits.last()) =~= edits.insert(at, edit));
    } else {
        assert(edits.push(edit) =~= edits.insert(at, edit));
    }
}

/// Orders edits by where they start.
fn order_edits(edits: &Vec<Edit>) -> (order: Vec<usize>)
    ensures
        order@.len() == edits@.len(),
        forall|i: int| 0 <= i < order@.len() ==> (#[trigger] order@[i]) < edits@.len(),
        picked(models(edits@), order@) == in_order(models(edits@)),
{
    let ghost all = models(edits@);
    let mut order: Vec<usize> = Vec::new();
    assert(picked(all, order@) =~= in_order(all.take(0)));
    for n in 0..edits.len()
        invariant
            all == models(edits@),
            order@.len() == n,
            forall|i: int| 0 <= i < order@.len() ==> (#[trigger] order@[i]) < n,
            picked(all, order@) == in_order(all.take(n as int)),
    {
        let ghost sorted = picked(all, order@);
        let mut at: usize = n;
        while at > 0 && edits[order[at - 1]].start > edits[n].start
            invariant
                all == models(edits@),
                n < edits@.len(),
                at <= n,
                order@.len() == n,
                forall|i: int| 0 <= i < order@.len() ==> (#[trigger] order@[i]) < n,
                sorted == picked(all, order@),
                forall|i: int| at <= i < n ==> (#[trigger] sorted[i]).start > all[n as int].start,
            decreases at,
        {
            at -= 1;
            assert(sorted[at as int] == edits@[order@[at as int] as int]@);
        }
        proof {
            if at > 0 {
                assert(sorted[at - 1] == edits@[order@[at - 1] as int]@);
            }
            lemma_put_in_order(sorted, all[n as int], at as int);
            assert(all.take(n + 1).drop_last() =~= all.take(n as int));
            assert(all.take(n + 1).last() == all[n as int]);
        }
        let ghost before = order@;
        order.insert(at, n);
        assert(picked(all, order@) =~= sorted.insert(at as int, all[n as int]));
        assert forall|i: int| 0 <= i < order@.len() implies (#[trigger] order@[i]) < n + 1 by {
            if i < at {
                assert(order@[i] == before[i]);
            } else if i > at {
                assert(order@[i] == before[i - 1]);
            }
        }
    }
    assert(all.take(all.len() as int) =~= all);
    order
}

/// Applies several edits at once. An edit that starts before the end of the one before it is
/// left out.
pub fn splice(text: &str, edits: Vec<Edit>) -> (out: String)
    requires
        applicable(text@, in_order(models(edits@)), 0),
    ensures
        out@ == applied(text@, in_order(models(edits@)), 0),
{
    let total = text.as_bytes().len();
    let order = order_edits(&edits);
    let ghost all = in_order(models(edits@));
    let mut out = String::new();
    let mut pos: usize = 0;
    assert(all.skip(0) =~= all);
    proof {
        text::lemma_byte_pos_ends(text@);
        text::lemma_byte_pos_on_boundary(text@, 0);
        text::lemma_byte_pos_on_boundary(text@, text@.len() as int);
    }
    for k in 0..order.len()
        invariant
            order@.len() == edits@.len(),
            all == in_order(models(edits@)),
            forall|i: int| 0 <= i < order@.len() ==> (#[trigger] order@[i]) < edits@.len(),
            picked(models(edits@), order@) == all,
            text::on_boundary(text@, pos as int),
            applicable(text@, all.skip(k as int), pos as int),
            out@ + applied(text@, all.skip(k as int), pos as int) =~= applied(text@, all, 0),
    {
        assert(all[k as int] == edits@[order@[k as int] as int]@);
        let edit = &edits[order[k]];
        let ghost rest = all.skip(k as int);
        assert(rest[0] == edit@);
        assert(rest.drop_first() =~= all.skip(k + 1));
        if edit.start >= pos {
            let kept = text::cut(text, pos, edit.start);
            out.append(kept);
            out.append(edit.replacement.as_str());
            pos = edit.end;
        }
    }
    assert(all.skip(order@.len() as int) =~= Seq::empty());
    proof {
        let i = text::lemma_boundary_has_position(text@, pos as int);
        text::lemma_byte_pos_monotone(text@, i, text@.len() as int);
        text::lemma_byte_pos_ends(text@);
        text::lemma_byte_pos_on_boundary(text@, text@.len() as int);
    }
    out.append(text::cut(text, pos, total));
    out
}

/// What stands between the markers of a result block is read back from it, without the line
/// breaks around it.
pub proof fn law_block_body_reads_back(body: Seq<char>)
    ensures
        block_body(
            parse::BEGIN_MARKER@ + seq!['\n'] + body + seq!['\n'] + parse::END_MARKER@ + seq!['\n'],
        ) == text::trim_char(body, '\n'),
{
    let begin = parse::BEGIN_MARKER@;
    let end = parse::END_MARKER@;
    reveal_strlit("<!-- runandlog:begin -->");
    reveal_strlit("<!-- runandlog:end -->");
    let block = begin + seq!['\n'] + body + seq!['\n'] + end + seq!['\n'];
    let n = begin.len() as int;
    assert(forall|i: int| 0 <= i < n ==> begin[i] != '\n');
    text::lemma_find_from_is(block, '\n', 0, n);
    let at = block.len() - 1 - end.len();
    assert(block.subrange(at, at + end.len()) =~= end);
    assert forall|i: int| at < i <= block.len() implies !text::occurs_at(block, end, i) by {
        if text::occurs_at(block, end, i) {
            assert(i == at + 1);
            assert(block.subrange(i, i + end.len())[end.len() - 1] == end[end.len() - 1]);
            assert(block[block.len() - 1] == '\n');
        }
    }
    lemma_last_occurrence_is(block, end, block.len() as int, at);
    let middle = block.subrange(n + 1, at);
    assert(middle =~= body + seq!['\n']);
    lemma_trim_ended(body);
}

proof fn lemma_last_occurrence_is(s: Seq<char>, pattern: Seq<char>, from: int, at: int)
    requires
        0 <= at <= from <= s.len(),
        text::occurs_at(s, pattern, at),
        forall|i: int| at < i <= from ==> !text::occurs_at(s, pattern, i),
    ensures
        last_occurrence(s, pattern, from) == at,
    decreases from,
{
    if at < from {
        lemma_last_occurrence_is(s, pattern, from - 1, at);
    }
}

/// A line break at the end makes no difference to a text without the line breaks around it.
proof fn lemma_trim_ended(body: Seq<char>)
    ensures
        text::trim_char(body.push('\n'), '\n') == text::trim_char(body, '\n'),
        text::trim_char(body + seq!['\n'], '\n') == text::trim_char(body, '\n'),
{
    let ended = body.push('\n');
    assert(body + seq!['\n'] =~= ended);
    text::lemma_leading(body, '\n');
    let n = text::leading(body, '\n') as int;
    if n == body.len() {
        text::lemma_leading_is(ended, '\n', n + 1);
        assert(body.skip(n) =~= Seq::empty());
        assert(ended.skip(n + 1) =~= Seq::empty());
    } else {
        text::lemma_leading_is(ended, '\n', n);
        let rest = body.skip(n);
        assert(ended.skip(n) =~= rest.push('\n'));
        assert(rest.push('\n').drop_last() =~= rest);
        assert(text::trailing(rest.push('\n'), '\n') == 1 + text::trailing(rest, '\n'));
        text::lemma_trailing(rest, '\n');
        assert(text::trim_end_char(rest.push('\n'), '\n') =~= text::trim_end_char(rest, '\n'));
    }
}

/// Edits are applied in the order of their places: they are sorted by where they start, and none of
/// them is lost or added.
pub proof fn law_edits_are_sorted(edits: Seq<EditModel>)
    ensures
        in_order(edits).len() == edits.len(),
        in_order(edits).to_multiset() == edits.to_multiset(),
        forall|i: int, j: int|
            0 <= i < j < edits.len() ==> (#[trigger] in_order(edits)[i]).start <= (
            #[trigger] in_order(edits)[j]).start,
    decreases edits.len(),
{
    if edits.len() > 0 {
        let before = edits.drop_last();
        law_edits_are_sorted(before);
        law_edit_is_put_in_its_place(in_order(before), edits.last());
        assert(edits =~= before.push(edits.last()));
        before.to_multiset_ensures();
    }
}

/// An edit is put after those that start no later, and before those that start later.
pub proof fn law_edit_is_put_in_its_place(sorted: Seq<EditModel>, edit: EditModel)
    requires
        forall|i: int, j: int|
            0 <= i < j < sorted.len() ==> (#[trigger] sorted[i]).start <= (
            #[trigger] sorted[j]).start,
    ensures
        put_in_order(sorted, edit).len() == sorted.len() + 1,
        put_in_order(sorted, edit).to_multiset() == sorted.to_multiset().insert(edit),
        forall|i: int, j: int|
            0 <= i < j < sorted.len() + 1 ==> (#[trigger] put_in_order(sorted, edit)[i]).start <= (
            #[trigger] put_in_order(sorted, edit)[j]).start,
    decreases sorted.len(),
{
    sorted.to_multiset_ensures();
    if sorted.len() > 0 && sorted.last().start > edit.start {
        let before = sorted.drop_last();
        law_edit_is_put_in_its_place(before, edit);
        let put = put_in_order(before, edit);
        let all = put_in_order(sorted, edit);
        put.to_multiset_ensures();
        before.to_multiset_ensures();
        assert(sorted =~= before.push(sorted.last()));
        assert(all =~= put.push(sorted.last()));
        assert forall|i: int, j: int| 0 <= i < j < all.len() implies (#[trigger] all[i]).start <= (
        #[trigger] all[j]).start by {
            if j == put.len() {
                assert(put.to_multiset().contains(put[i]));
                if put[i] != edit {
                    assert(before.to_multiset().contains(put[i]));
                    assert(before.contains(put[i]));
                    let k = choose|k: int| 0 <= k < before.len() && before[k] == put[i];
                    assert(sorted[k].start <= sorted[sorted.len() - 1].start);
                }
            }
        }
        assert(all.to_multiset() =~= sorted.to_multiset().insert(edit));
    } else {
        let all = put_in_order(sorted, edit);
        assert forall|i: int, j: int| 0 <= i < j < all.len() implies (#[trigger] all[i]).start <= (
        #[trigger] all[j]).start by {
            if j == sorted.len() && i < sorted.len() - 1 {
                assert(sorted[i].start <= sorted[sorted.len() - 1].start);
            }
        }
    }
}

/// An edit replaces its part of the text and leaves the rest as it is; no edit at all leaves the
/// whole text. Of two edits, one that starts before the other has ended is left out.
pub proof fn law_edit_replaces_its_part(s: Seq<char>, first: EditModel, second: EditModel)
    requires
        0 <= first.start <= first.end,
    ensures
        applied(s, Seq::empty(), 0) == s,
        applied(s, seq![first], 0) == text::byte_slice(s, 0, first.start) + first.replacement
            + text::byte_slice(s, first.end, text::byte_len(s) as int),
        second.start < first.end ==> applied(s, seq![first, second], 0) == applied(
            s,
            seq![first],
            0,
        ),
        first.end <= second.start ==> applied(s, seq![first, second], 0) == text::byte_slice(
            s,
            0,
            first.start,
        ) + first.replacement + text::byte_slice(s, first.end, second.start) + second.replacement
            + text::byte_slice(s, second.end, text::byte_len(s) as int),
{
    let none = Seq::<EditModel>::empty();
    let both = seq![first, second];
    reveal_with_fuel(applied, 3);
    assert(seq![first].drop_first() =~= none);
    assert(both.drop_first() =~= seq![second]);
    assert(seq![second].drop_first() =~= none);
    text::lemma_byte_pos_ends(s);
    text::lemma_byte_slice(s, 0, s.len() as int);
    assert(s.subrange(0, s.len() as int) =~= s);
    assert(applied(s, seq![first], 0) =~= text::byte_slice(s, 0, first.start) + first.replacement
        + text::byte_slice(s, first.end, text::byte_len(s) as int));
    let rest = applied(s, seq![second], first.end);
    assert(applied(s, both, 0) =~= text::byte_slice(s, 0, first.start) + first.replacement + rest);
    if first.end <= second.start {
        let last = text::byte_slice(s, second.end, text::byte_len(s) as int);
        assert(rest =~= text::byte_slice(s, first.end, second.start) + second.replacement + last);
        assert(applied(s, both, 0) =~= text::byte_slice(s, 0, first.start) + first.replacement
            + text::byte_slice(s, first.end, second.start) + second.replacement + last);
    }
}

} // verus!
