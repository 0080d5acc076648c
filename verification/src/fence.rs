//! Code fences.

use vstd::prelude::*;

use crate::text;

verus! {

/// An opening fence.
pub struct FenceModel {
    /// The character it is made of: a backtick or a tilde.
    pub ch: char,
    /// How many of them there are.
    pub len: nat,
    /// How many spaces stand before it.
    pub indent: nat,
    /// What follows it on its line.
    pub info: Seq<char>,
}

/// The fence that a line opens, if it opens one: at most three spaces, at least three
/// backticks or tildes, and an info string. The info string of a backtick fence holds no
/// backtick.
pub open spec fn opening(line: Seq<char>) -> Option<FenceModel> {
    let indent = text::leading(line, ' ');
    let rest = line.skip(indent as int);
    if indent > 3 || rest.len() == 0 || !(rest[0] == '`' || rest[0] == '~') {
        None
    } else {
        let ch = rest[0];
        let len = text::leading(rest, ch);
        let info = text::trim(rest.skip(len as int));
        if len < 3 || (ch == '`' && info.contains('`')) {
            None
        } else {
            Some(FenceModel { ch, len, indent, info })
        }
    }
}

/// Whether a line closes `fence`: at most three spaces, at least as many of the same
/// character, and nothing after them but white space.
pub open spec fn closing(line: Seq<char>, fence: FenceModel) -> bool {
    let indent = text::leading(line, ' ');
    let rest = line.skip(indent as int);
    let len = text::leading(rest, fence.ch);
    indent <= 3 && len >= fence.len && text::trim(rest.skip(len as int)).len() == 0
}

/// The first of `lines`, at or after `from`, that closes `fence`.
pub open spec fn closing_line(lines: Seq<Seq<char>>, from: int, fence: FenceModel) -> Option<int>
    decreases lines.len() - from,
{
    if from >= lines.len() {
        None
    } else if closing(lines[from], fence) {
        Some(from)
    } else {
        closing_line(lines, from + 1, fence)
    }
}

/// An opening fence.
pub struct Fence<'a> {
    /// The character it is made of: a backtick or a tilde.
    pub ch: char,
    /// How many of them there are.
    pub len: usize,
    /// How many spaces stand before it.
    pub indent: usize,
    /// What follows it on its line.
    pub info: &'a [char],
}

impl<'a> View for Fence<'a> {
    type V = FenceModel;

    open spec fn view(&self) -> FenceModel {
        FenceModel {
            ch: self.ch,
            len: self.len as nat,
            indent: self.indent as nat,
            info: self.info@,
        }
    }
}

/// The fence that a line opens.
pub fn open_fence<'a>(line: &'a [char]) -> (fence: Option<Fence<'a>>)
    ensures
        fence is Some <==> opening(line@) is Some,
        fence matches Some(f) ==> f@ == opening(line@)->0,
{
    let indent = text::count_leading(line, ' ');
    if indent > 3 {
        return None;
    }
    let rest = text::from_position(line, indent);
    if rest.len() == 0 {
        return None;
    }
    let ch = rest[0];
    if ch != '`' && ch != '~' {
        return None;
    }
    let len = text::count_leading(rest, ch);
    if len < 3 {
        return None;
    }
    let info = text::trimmed(text::from_position(rest, len));
    if ch == '`' {
        let at = text::find_char(info, '`', 0);
        proof {
            text::lemma_find_from(info@, '`', 0);
        }
        if at < info.len() {
            assert(info@[at as int] == '`');
            return None;
        }
    }
    Some(Fence { ch, len, indent, info })
}

/// Whether a line closes `fence`.
pub fn closes_fence(line: &[char], fence: &Fence<'_>) -> (closes: bool)
    ensures
        closes == closing(line@, fence@),
{
    let indent = text::count_leading(line, ' ');
    if indent > 3 {
        return false;
    }
    let rest = text::from_position(line, indent);
    let len = text::count_leading(rest, fence.ch);
    len >= fence.len && text::trimmed(text::from_position(rest, len)).len() == 0
}

/// `count` times the same character.
pub open spec fn times(c: char, count: nat) -> Seq<char> {
    Seq::new(count, |i: int| c)
}

/// How many characters a text begins with is counted to its first other character.
proof fn lemma_leading_times(c: char, count: nat, rest: Seq<char>)
    requires
        rest.len() > 0 ==> rest[0] != c,
    ensures
        text::leading(times(c, count) + rest, c) == count,
        (times(c, count) + rest).skip(count as int) == rest,
{
    let s = times(c, count) + rest;
    text::lemma_leading_is(s, c, count as int);
    assert(s.skip(count as int) =~= rest);
}

/// A line opens a fence exactly if it has this form: at most three spaces, three or more backticks
/// or tildes, and anything that does not begin with another of them; after backticks no backtick
/// may follow. What follows is the info string, without the white space around it.
pub proof fn law_opening_fence(indent: nat, ch: char, len: nat, rest: Seq<char>)
    requires
        rest.len() > 0 ==> rest[0] != ch,
        ch == '`' || ch == '~',
        len > 0,
    ensures
        ({
            let line = times(' ', indent) + (times(ch, len) + rest);
            let info = text::trim(rest);
            let opens = indent <= 3 && len >= 3 && !(ch == '`' && info.contains('`'));
            &&& opens ==> opening(line) == Some(FenceModel { ch, len, indent, info })
            &&& !opens ==> opening(line) is None
        }),
{
    let marks = times(ch, len) + rest;
    assert(marks[0] == ch);
    lemma_leading_times(' ', indent, marks);
    lemma_leading_times(ch, len, rest);
}

/// A line that opens a fence has that form.
pub proof fn law_opening_fence_has_its_form(line: Seq<char>) -> (rest: Seq<char>)
    requires
        opening(line) is Some,
    ensures
        ({
            let f = opening(line)->0;
            &&& f.indent <= 3
            &&& f.len >= 3
            &&& f.ch == '`' || f.ch == '~'
            &&& line == times(' ', f.indent) + (times(f.ch, f.len) + rest)
            &&& rest.len() > 0 ==> rest[0] != f.ch
            &&& f.info == text::trim(rest)
        }),
{
    let f = opening(line)->0;
    text::lemma_leading(line, ' ');
    let marks = line.skip(f.indent as int);
    text::lemma_leading(marks, f.ch);
    let rest = marks.skip(f.len as int);
    assert(marks =~= times(f.ch, f.len) + rest);
    assert(line =~= times(' ', f.indent) + marks);
    if rest.len() > 0 {
        assert(rest[0] == marks[f.len as int]);
    }
    rest
}

/// A line closes a fence exactly if it has this form: at most three spaces, at least as many of the
/// same character, and only white space after them.
pub proof fn law_closing_fence(fence: FenceModel, indent: nat, len: nat, rest: Seq<char>)
    requires
        fence.ch == '`' || fence.ch == '~',
        fence.len > 0,
        rest.len() > 0 ==> rest[0] != fence.ch,
        len == 0 ==> rest.len() > 0 && rest[0] != ' ',
    ensures
        closing(times(' ', indent) + (times(fence.ch, len) + rest), fence) <==> indent <= 3 && len
            >= fence.len && text::trim(rest).len() == 0,
{
    let marks = times(fence.ch, len) + rest;
    if len > 0 {
        assert(marks[0] == fence.ch);
    } else {
        assert(marks =~= rest);
    }
    lemma_leading_times(' ', indent, marks);
    lemma_leading_times(fence.ch, len, rest);
}

/// A fence is closed by the first line that closes it.
pub proof fn law_first_closing_line_counts(lines: Seq<Seq<char>>, from: int, fence: FenceModel)
    requires
        0 <= from <= lines.len(),
    ensures
        closing_line(lines, from, fence) matches Some(j) ==> from <= j < lines.len() && closing(
            lines[j],
            fence,
        ) && forall|i: int| from <= i < j ==> !closing(#[trigger] lines[i], fence),
        closing_line(lines, from, fence) is None ==> forall|i: int|
            from <= i < lines.len() ==> !closing(#[trigger] lines[i], fence),
    decreases lines.len() - from,
{
    if from < lines.len() && !closing(lines[from], fence) {
        law_first_closing_line_counts(lines, from + 1, fence);
    }
}

} // verus!
