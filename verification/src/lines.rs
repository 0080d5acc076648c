//! The lines of a document, together with where they stand in it.

use vstd::prelude::*;
use vstd::slice::slice_subrange;

use crate::text;

verus! {

/// Where a line stands: the position of its first character, and the position
/// after its line break (or the end of the text, for a last line without one).
pub struct LineSpan {
    pub start: int,
    pub end: int,
}

/// Position after the line that holds position `from`.
pub open spec fn line_end(s: Seq<char>, from: int) -> int {
    let at = text::find_from(s, '\n', from);
    if at < s.len() {
        at + 1
    } else {
        s.len() as int
    }
}

/// The lines of `s` from position `from` on.
pub open spec fn lines_from(s: Seq<char>, from: int) -> Seq<LineSpan>
    decreases s.len() - from,
{
    if 0 <= from < s.len() && line_end(s, from) > from {
        seq![LineSpan { start: from, end: line_end(s, from) }] + lines_from(s, line_end(s, from))
    } else {
        Seq::empty()
    }
}

/// The lines of `s`.
pub open spec fn lines_of(s: Seq<char>) -> Seq<LineSpan> {
    lines_from(s, 0)
}

/// A line without its line break.
pub open spec fn line_text(s: Seq<char>, line: LineSpan) -> Seq<char> {
    text::trim_end_char(text::trim_end_char(s.subrange(line.start, line.end), '\n'), '\r')
}

/// The lines of `s`, without their line breaks.
pub open spec fn line_texts(s: Seq<char>) -> Seq<Seq<char>> {
    lines_of(s).map_values(|line: LineSpan| line_text(s, line))
}

/// A line of a document.
pub struct Line<'a> {
    /// The line without its line break.
    pub text: &'a [char],
    /// Position of its first character.
    pub start: usize,
    /// Position after its line break.
    pub end: usize,
    /// Byte offset of its first character.
    pub byte_start: usize,
    /// Byte offset after its line break.
    pub byte_end: usize,
}

impl<'a> Line<'a> {
    /// Whether this is the line of `s` that `span` describes.
    pub open spec fn describes(&self, s: Seq<char>, span: LineSpan) -> bool {
        &&& self.start == span.start
        &&& self.end == span.end
        &&& self.text@ == line_text(s, span)
        &&& self.byte_start == text::byte_pos(s, span.start)
        &&& self.byte_end == text::byte_pos(s, span.end)
    }
}

/// Whether `lines` are the lines of `s`.
pub open spec fn are_lines_of(lines: Seq<Line<'_>>, s: Seq<char>) -> bool {
    &&& lines.len() == lines_of(s).len()
    &&& forall|i: int|
        0 <= i < lines.len() ==> (#[trigger] lines[i]).describes(s, lines_of(s)[i])
}

pub proof fn lemma_line_end(s: Seq<char>, from: int)
    requires
        0 <= from < s.len(),
    ensures
        from < line_end(s, from) <= s.len(),
{
    text::lemma_find_from(s, '\n', from);
}

/// The lines of a text follow each other without a gap, from its start to its end.
pub proof fn lemma_lines_from(s: Seq<char>, from: int)
    requires
        0 <= from <= s.len(),
    ensures
        from < s.len() ==> lines_from(s, from).len() > 0,
        lines_from(s, from).len() > 0 ==> lines_from(s, from)[0].start == from && lines_from(
            s,
            from,
        ).last().end == s.len(),
        forall|i: int|
            0 <= i < lines_from(s, from).len() ==> from <= (#[trigger] lines_from(
                s,
                from,
            )[i]).start < lines_from(s, from)[i].end <= s.len() && lines_from(s, from)[i].end
                == line_end(s, lines_from(s, from)[i].start),
        forall|i: int, j: int|
            0 <= i < j < lines_from(s, from).len() ==> (#[trigger] lines_from(s, from)[i]).end <= (
            #[trigger] lines_from(s, from)[j]).start,
    decreases s.len() - from,
{
    if from < s.len() {
        lemma_line_end(s, from);
        let next = line_end(s, from);
        lemma_lines_from(s, next);
        let rest = lines_from(s, next);
        let all = lines_from(s, from);
        assert forall|i: int| 0 <= i < all.len() implies from <= (#[trigger] all[i]).start
            < all[i].end <= s.len() && all[i].end == line_end(s, all[i].start) by {
            if i > 0 {
                assert(all[i] == rest[i - 1]);
            }
        }
        assert forall|i: int, j: int| 0 <= i < j < all.len() implies (#[trigger] all[i]).end <= (
        #[trigger] all[j]).start by {
            assert(all[j] == rest[j - 1]);
            if i > 0 {
                assert(all[i] == rest[i - 1]);
            }
        }
        if rest.len() > 0 {
            assert(all.last() == rest.last());
        }
    }
}

/// A line ends where the next one begins.
pub proof fn lemma_next_line(s: Seq<char>, from: int, i: int)
    requires
        0 <= from <= s.len(),
        0 <= i < lines_from(s, from).len() - 1,
    ensures
        lines_from(s, from)[i].end == lines_from(s, from)[i + 1].start,
    decreases s.len() - from,
{
    lemma_line_end(s, from);
    let next = line_end(s, from);
    let rest = lines_from(s, next);
    let all = lines_from(s, from);
    assert(all[i + 1] == rest[i]);
    if i > 0 {
        assert(all[i] == rest[i - 1]);
        lemma_next_line(s, next, i - 1);
    } else {
        lemma_lines_from(s, next);
    }
}

/// The same lines, `by` characters further on.
pub open spec fn moved(lines: Seq<LineSpan>, by: int) -> Seq<LineSpan> {
    lines.map_values(|line: LineSpan| LineSpan { start: line.start + by, end: line.end + by })
}

/// Whether a text can be followed by another without joining its last line to it.
pub open spec fn is_complete(s: Seq<char>) -> bool {
    s.len() == 0 || s.last() == '\n'
}

proof fn lemma_find_after(a: Seq<char>, b: Seq<char>, c: char, from: int)
    requires
        0 <= from <= b.len(),
    ensures
        text::find_from(a + b, c, a.len() + from) == a.len() + text::find_from(b, c, from),
    decreases b.len() - from,
{
    if from < b.len() {
        assert((a + b)[a.len() + from] == b[from]);
        if b[from] != c {
            lemma_find_after(a, b, c, from + 1);
        }
    }
}

proof fn lemma_lines_after(a: Seq<char>, b: Seq<char>, from: int)
    requires
        0 <= from <= b.len(),
    ensures
        lines_from(a + b, a.len() + from) == moved(lines_from(b, from), a.len() as int),
    decreases b.len() - from,
{
    lemma_find_after(a, b, '\n', from);
    if from < b.len() {
        lemma_line_end(b, from);
        lemma_lines_after(a, b, line_end(b, from));
        assert(lines_from(a + b, a.len() + from) =~= moved(lines_from(b, from), a.len() as int));
    } else {
        assert(lines_from(a + b, a.len() + from) =~= moved(lines_from(b, from), a.len() as int));
    }
}

proof fn lemma_lines_before(a: Seq<char>, b: Seq<char>, from: int)
    requires
        0 <= from <= a.len(),
        is_complete(a),
    ensures
        lines_from(a + b, from) == lines_from(a, from) + moved(lines_of(b), a.len() as int),
    decreases a.len() - from,
{
    if from < a.len() {
        text::lemma_find_from(a, '\n', from);
        let at = text::find_from(a, '\n', from);
        assert(at < a.len()) by {
            if at == a.len() {
                assert(a[a.len() - 1] != '\n');
            }
        }
        assert forall|i: int| from <= i < at implies (a + b)[i] != '\n' by {
            assert(a[i] != '\n');
        }
        text::lemma_find_from_is(a + b, '\n', from, at);
        lemma_line_end(a, from);
        lemma_lines_before(a, b, line_end(a, from));
        assert(lines_from(a + b, from) =~= lines_from(a, from) + moved(
            lines_of(b),
            a.len() as int,
        ));
    } else {
        lemma_lines_after(a, b, 0);
        assert(lines_from(a, from) + moved(lines_of(b), a.len() as int) =~= moved(
            lines_of(b),
            a.len() as int,
        ));
    }
}

/// The lines of a text that is followed by another.
pub proof fn lemma_lines_concat(a: Seq<char>, b: Seq<char>)
    requires
        is_complete(a),
    ensures
        lines_of(a + b) == lines_of(a) + moved(lines_of(b), a.len() as int),
        line_texts(a + b) == line_texts(a) + line_texts(b),
{
    lemma_lines_before(a, b, 0);
    lemma_lines_from(a, 0);
    lemma_lines_from(b, 0);
    let la = lines_of(a);
    let lb = lines_of(b);
    let l = lines_of(a + b);
    assert forall|i: int| 0 <= i < l.len() implies #[trigger] line_text(a + b, l[i]) == (line_texts(
        a,
    ) + line_texts(b))[i] by {
        if i < la.len() {
            assert(l[i] == la[i]);
            assert((a + b).subrange(l[i].start, l[i].end) =~= a.subrange(la[i].start, la[i].end));
        } else {
            let k = i - la.len();
            assert(l[i].start == lb[k].start + a.len());
            assert((a + b).subrange(l[i].start, l[i].end) =~= b.subrange(lb[k].start, lb[k].end));
        }
    }
    assert(line_texts(a + b) =~= line_texts(a) + line_texts(b));
}

/// Ending the last line of a text changes none of its lines.
pub proof fn lemma_last_line_ended(a: Seq<char>)
    requires
        !is_complete(a),
    ensures
        line_texts(a.push('\n')) == line_texts(a),
        lines_of(a.push('\n')).len() == lines_of(a).len(),
        forall|i: int|
            0 <= i < lines_of(a).len() ==> (#[trigger] lines_of(a.push('\n'))[i]).start
                == lines_of(a)[i].start && (i < lines_of(a).len() - 1 ==> lines_of(
                a.push('\n'),
            )[i].end == lines_of(a)[i].end),
{
    let b = a.push('\n');
    lemma_lines_from(a, 0);
    let la = lines_of(a);
    let last = la.last();
    let p = last.start;
    // Everything before the last line is complete.
    let head = a.take(p);
    let rest = a.skip(p);
    assert(is_complete(head)) by {
        if la.len() > 1 {
            let before = la[la.len() - 2];
            lemma_next_line(a, 0, la.len() - 2);
            assert(before.end == p);
            assert(before.end == line_end(a, before.start));
            text::lemma_find_from(a, '\n', before.start);
        }
    }
    text::lemma_find_from(a, '\n', p);
    assert(forall|i: int| p <= i < a.len() ==> a[i] != '\n') by {
        if text::find_from(a, '\n', p) < a.len() {
            assert(last.end == text::find_from(a, '\n', p) + 1);
            assert(a.last() == '\n');
        }
    }
    assert(forall|i: int| 0 <= i < rest.len() ==> rest[i] != '\n');
    text::lemma_find_from_is(rest, '\n', 0, rest.len() as int);
    let ended = rest.push('\n');
    text::lemma_find_from_is(ended, '\n', 0, rest.len() as int);
    reveal_with_fuel(lines_from, 2);
    assert(lines_of(rest) =~= seq![LineSpan { start: 0, end: rest.len() as int }]);
    assert(lines_of(ended) =~= seq![LineSpan { start: 0, end: ended.len() as int }]);
    assert(ended.subrange(0, ended.len() as int) =~= ended);
    assert(rest.subrange(0, rest.len() as int) =~= rest);
    assert(text::trim_end_char(ended, '\n') =~= rest) by {
        text::lemma_trailing_is(ended, '\n', 1);
    }
    assert(text::trim_end_char(rest, '\n') =~= rest) by {
        text::lemma_trailing_is(rest, '\n', 0);
    }
    assert(line_texts(ended) =~= line_texts(rest));
    assert(a =~= head + rest);
    assert(b =~= head + ended);
    lemma_lines_concat(head, rest);
    lemma_lines_concat(head, ended);
}

/// Splits a text into its lines.
pub fn split_lines<'a>(s: &'a [char]) -> (lines: Vec<Line<'a>>)
    requires
        text::byte_len(s@) <= usize::MAX,
    ensures
        are_lines_of(lines@, s@),
{
    let mut lines: Vec<Line<'a>> = Vec::new();
    let mut start: usize = 0;
    let mut byte_start: usize = 0;
    proof {
        text::lemma_byte_pos_ends(s@);
    }
    while start < s.len()
        invariant
            start <= s@.len(),
            text::byte_len(s@) <= usize::MAX,
            byte_start == text::byte_pos(s@, start as int),
            lines@.len() <= lines_of(s@).len(),
            lines_of(s@) == lines_of(s@).take(lines@.len() as int) + lines_from(s@, start as int),
            forall|i: int|
                0 <= i < lines@.len() ==> (#[trigger] lines@[i]).describes(s@, lines_of(s@)[i]),
        decreases s@.len() - start,
    {
        proof {
            lemma_line_end(s@, start as int);
        }
        let at = text::find_char(s, '\n', start);
        let end: usize = if at < s.len() {
            at + 1
        } else {
            at
        };
        let mut byte_end: usize = byte_start;
        for i in start..end
            invariant
                start <= end <= s@.len(),
                text::byte_len(s@) <= usize::MAX,
                byte_end == text::byte_pos(s@, i as int),
        {
            proof {
                text::lemma_byte_pos_step(s@, i as int);
                text::lemma_byte_pos_monotone(s@, i as int + 1, s@.len() as int);
            }
            byte_end += text::width_of(s[i]);
        }
        let raw = slice_subrange(s, start, end);
        let ghost done = lines@.len() as int;
        let ghost rest = lines_from(s@, start as int);
        proof {
            assert(lines_of(s@)[done] == rest[0]);
            assert(lines_of(s@).take(done + 1) =~= lines_of(s@).take(done).push(rest[0]));
            assert(lines_of(s@) =~= lines_of(s@).take(done + 1) + lines_from(s@, end as int));
        }
        lines.push(
            Line {
                text: text::without_trailing(text::without_trailing(raw, '\n'), '\r'),
                start,
                end,
                byte_start,
                byte_end,
            },
        );
        start = end;
        byte_start = byte_end;
    }
    lines
}

/// Whether a text is one line.
pub open spec fn is_one_line(s: Seq<char>) -> bool {
    forall|i: int| 0 <= i < s.len() ==> s[i] != '\n'
}

/// The one line of a text that holds no line break.
pub proof fn lemma_one_line(x: Seq<char>)
    requires
        is_one_line(x),
    ensures
        line_texts(x.push('\n')) == seq![text::trim_end_char(x, '\r')],
{
    let s = x.push('\n');
    let n = x.len() as int;
    text::lemma_find_from_is(s, '\n', 0, n);
    reveal_with_fuel(lines_from, 2);
    assert(lines_of(s) =~= seq![LineSpan { start: 0, end: n + 1 }]);
    assert(s.subrange(0, n + 1) =~= s);
    text::lemma_trailing_is(s, '\n', 1);
    assert(text::trim_end_char(s, '\n') =~= x);
    assert(line_texts(s) =~= seq![text::trim_end_char(x, '\r')]);
}

/// A line that does not end with a carriage return.
pub proof fn lemma_plain_line(x: Seq<char>)
    requires
        is_one_line(x),
        x.len() > 0 ==> x.last() != '\r',
    ensures
        line_texts(x.push('\n')) == seq![x],
{
    lemma_one_line(x);
    text::lemma_trailing_is(x, '\r', 0);
    assert(text::trim_end_char(x, '\r') =~= x);
}

/// A line break is a line feed, or a carriage return and a line feed: it is no part of its line.
pub proof fn law_line_breaks_are_left_out(line: Seq<char>, rest: Seq<char>)
    requires
        is_one_line(line),
        line.len() > 0 ==> line.last() != '\r',
    ensures
        line_texts(line.push('\n') + rest) == seq![line] + line_texts(rest),
        line_texts(line.push('\r').push('\n') + rest) == seq![line] + line_texts(rest),
        lines_of(line.push('\n') + rest)[0] == (LineSpan { start: 0, end: line.len() as int + 1 }),
{
    lemma_plain_line(line);
    lemma_lines_concat(line.push('\n'), rest);
    let long = line.push('\r');
    assert forall|i: int| 0 <= i < long.len() implies long[i] != '\n' by {
        if i < line.len() {
            assert(long[i] == line[i]);
        }
    }
    lemma_one_line(long);
    text::lemma_trailing_is(long, '\r', 1);
    assert(text::trim_end_char(long, '\r') =~= line);
    lemma_lines_concat(long.push('\n'), rest);
    lemma_lines_from(line.push('\n'), 0);
    assert(line_texts(line.push('\n')).len() == 1);
    assert(lines_of(line.push('\n'))[0] == lines_of(line.push('\n')).last());
}

} // verus!
