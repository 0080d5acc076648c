//! Markdown links: how a destination file is written down and read back.

use vstd::prelude::*;
use vstd::slice::slice_subrange;

use crate::text;

verus! {

/// Position of the parenthesis that closes the one before `from`, with `depth` more
/// parentheses open; the length of `s` when there is none.
pub open spec fn matching_paren(s: Seq<char>, from: int, depth: nat) -> int
    decreases s.len() - from,
{
    if from >= s.len() {
        s.len() as int
    } else if s[from] == '(' {
        matching_paren(s, from + 1, depth + 1)
    } else if s[from] == ')' {
        if depth == 0 {
            from
        } else {
            matching_paren(s, from + 1, (depth - 1) as nat)
        }
    } else {
        matching_paren(s, from + 1, depth)
    }
}

/// What stands between angle brackets, when `s` begins with them and a closing parenthesis
/// follows.
pub open spec fn bracketed(s: Seq<char>) -> Option<Seq<char>> {
    let t = text::trim_start(s);
    let at = text::find_from(t, '>', 1);
    if t.len() > 0 && t[0] == '<' && at < t.len() && text::begins_with(
        text::trim_start(t.skip(at + 1)),
        seq![')'],
    ) {
        Some(t.subrange(1, at))
    } else {
        None
    }
}

/// Whether a text holds no white space.
pub open spec fn is_solid(s: Seq<char>) -> bool {
    forall|i: int| 0 <= i < s.len() ==> !text::is_white_space(#[trigger] s[i])
}

/// The destination of a link, read from the text after its opening parenthesis. It stands
/// between angle brackets, or it ends at the parenthesis that closes the link; when the
/// parentheses do not balance, or only with white space between them, the first closing one ends
/// it.
pub open spec fn destination(s: Seq<char>) -> Option<Seq<char>> {
    let end = matching_paren(s, 0, 0);
    let first = text::find_from(s, ')', 0);
    if bracketed(s) is Some {
        bracketed(s)
    } else if end < s.len() && is_solid(text::trim(s.take(end))) {
        Some(text::trim(s.take(end)))
    } else if first < s.len() {
        Some(text::trim(s.take(first)))
    } else {
        None
    }
}

/// The destination of the first link of a paragraph: `[label](destination)`, or `[label]`
/// alone, where the label is the destination.
pub open spec fn link_target(paragraph: Seq<char>) -> Option<Seq<char>> {
    let open = text::find_from(paragraph, '[', 0);
    let close = text::find_from(paragraph, ']', open);
    let label = text::trim(paragraph.subrange(open + 1, close));
    let rest = text::trim_start(paragraph.skip(close + 1));
    let by_label = if label.len() == 0 {
        None
    } else {
        Some(label)
    };
    if open >= paragraph.len() || close >= paragraph.len() {
        None
    } else if rest.len() > 0 && rest[0] == '(' {
        match destination(rest.drop_first()) {
            None => None,
            Some(target) => if target.len() > 0 {
                Some(target)
            } else {
                by_label
            },
        }
    } else {
        by_label
    }
}

/// How `file` is written as the destination of a link: between angle brackets when it holds
/// a space, which a bare destination cannot.
pub open spec fn written_destination(file: Seq<char>) -> Seq<char> {
    if file.contains(' ') {
        seq!['<'] + file + seq!['>']
    } else {
        file
    }
}

/// A link to `file`, with the file name as its label.
pub open spec fn link_to(file: Seq<char>) -> Seq<char> {
    seq!['['] + file + seq![']', '('] + written_destination(file) + seq![')']
}

pub proof fn lemma_matching_paren(s: Seq<char>, from: int, depth: nat)
    requires
        0 <= from <= s.len(),
    ensures
        from <= matching_paren(s, from, depth) <= s.len(),
    decreases s.len() - from,
{
    if from < s.len() {
        if s[from] == '(' {
            lemma_matching_paren(s, from + 1, depth + 1);
        } else if s[from] == ')' {
            if depth > 0 {
                lemma_matching_paren(s, from + 1, (depth - 1) as nat);
            }
        } else {
            lemma_matching_paren(s, from + 1, depth);
        }
    }
}

/// Position of the parenthesis that closes a link.
fn find_matching_paren(s: &[char]) -> (at: usize)
    ensures
        at == matching_paren(s@, 0, 0),
        at <= s@.len(),
{
    let mut at: usize = 0;
    let mut depth: usize = 0;
    while at < s.len()
        invariant
            depth <= at <= s@.len(),
            matching_paren(s@, at as int, depth as nat) == matching_paren(s@, 0, 0),
        decreases s@.len() - at,
    {
        if s[at] == '(' {
            depth += 1;
        } else if s[at] == ')' {
            if depth == 0 {
                return at;
            }
            depth -= 1;
        }
        at += 1;
    }
    at
}

/// What stands between angle brackets at the start of `s`.
fn between_brackets<'a>(s: &'a [char]) -> (inner: Option<&'a [char]>)
    ensures
        inner is Some <==> bracketed(s@) is Some,
        inner matches Some(i) ==> i@ == bracketed(s@)->0,
{
    let t = text::without_leading_space(s);
    if t.len() == 0 || t[0] != '<' {
        return None;
    }
    let at = text::find_char(t, '>', 1);
    if at >= t.len() {
        return None;
    }
    let rest = text::without_leading_space(text::from_position(t, at + 1));
    if rest.len() == 0 || rest[0] != ')' {
        assert(!text::begins_with(rest@, seq![')'])) by {
            if text::begins_with(rest@, seq![')']) {
                assert(rest@.take(1)[0] == ')');
            }
        }
        return None;
    }
    assert(rest@.take(1) =~= seq![')']);
    Some(slice_subrange(t, 1, at))
}

/// Whether a text holds no white space.
fn holds_no_white_space(s: &[char]) -> (solid: bool)
    ensures
        solid == is_solid(s@),
{
    for i in 0..s.len()
        invariant
            forall|j: int| 0 <= j < i ==> !text::is_white_space(#[trigger] s@[j]),
    {
        if text::white_space(s[i]) {
            assert(text::is_white_space(s@[i as int]));
            return false;
        }
    }
    true
}

/// The destination of a link, read from the text after its opening parenthesis.
fn read_destination<'a>(s: &'a [char]) -> (target: Option<&'a [char]>)
    ensures
        target is Some <==> destination(s@) is Some,
        target matches Some(t) ==> t@ == destination(s@)->0,
{
    let inner = between_brackets(s);
    if inner.is_some() {
        return inner;
    }
    let end = find_matching_paren(s);
    if end < s.len() {
        let target = text::trimmed(text::up_to_position(s, end));
        if holds_no_white_space(target) {
            return Some(target);
        }
    }
    let first = text::find_char(s, ')', 0);
    if first < s.len() {
        return Some(text::trimmed(text::up_to_position(s, first)));
    }
    None
}

/// The destination of the first link of a paragraph.
pub fn extract_link_target(paragraph: &[char]) -> (target: Option<String>)
    ensures
        text::opt_text(target) == link_target(paragraph@),
{
    let open = text::find_char(paragraph, '[', 0);
    if open >= paragraph.len() {
        return None;
    }
    let close = text::find_char(paragraph, ']', open);
    if close >= paragraph.len() {
        return None;
    }
    proof {
        text::lemma_find_from(paragraph@, ']', open as int);
    }
    let label = text::trimmed(slice_subrange(paragraph, open + 1, close));
    let rest = text::without_leading_space(text::from_position(paragraph, close + 1));
    if rest.len() > 0 && rest[0] == '(' {
        let inside = text::from_position(rest, 1);
        assert(inside@ =~= rest@.drop_first());
        match read_destination(inside) {
            None => {
                return None;
            },
            Some(target) => {
                if target.len() > 0 {
                    return Some(text::to_text(target));
                }
            },
        }
    }
    if label.len() == 0 {
        return None;
    }
    Some(text::to_text(label))
}

/// A link to `file`, with the file name as its label.
pub fn write_link(file: &str) -> (link: String)
    ensures
        link@ == link_to(file@),
{
    let chars = text::to_chars(file);
    let at = text::find_char(chars.as_slice(), ' ', 0);
    proof {
        text::lemma_find_from(file@, ' ', 0);
        assert(at < chars@.len() ==> file@[at as int] == ' ');
    }
    let mut link = String::new();
    link.push('[');
    link.append(file);
    link.push(']');
    link.push('(');
    if at < chars.len() {
        link.push('<');
        link.append(file);
        link.push('>');
    } else {
        link.append(file);
    }
    link.push(')');
    assert(link@ =~= link_to(file@));
    link
}

/// Whether `file` can be named by a link: its name does not end the label early, and is read
/// whole as a destination.
pub open spec fn is_linkable(file: Seq<char>) -> bool {
    &&& file.len() > 0
    &&& !file.contains(']')
    &&& if file.contains(' ') {
        !file.contains('>')
    } else {
        &&& file[0] != '<'
        &&& !text::is_white_space(file[0])
        &&& !text::is_white_space(file.last())
        &&& matching_paren(file.push(')'), 0, 0) == file.len()
        &&& is_solid(file) || !file.contains(')')
    }
}

/// A text that does not begin with white space is not shortened at its start.
proof fn lemma_trim_start_none(s: Seq<char>)
    requires
        s.len() > 0,
        !text::is_white_space(s[0]),
    ensures
        text::trim_start(s) == s,
{
    text::lemma_leading_space_is(s, 0);
    assert(s.skip(0) =~= s);
}

/// The closing parenthesis found is the same whatever comes after it.
proof fn lemma_matching_paren_before(s: Seq<char>, after: Seq<char>, from: int, depth: nat)
    requires
        0 <= from <= s.len(),
        matching_paren(s, from, depth) < s.len(),
    ensures
        matching_paren(s + after, from, depth) == matching_paren(s, from, depth),
    decreases s.len() - from,
{
    if from < s.len() {
        assert((s + after)[from] == s[from]);
        if s[from] == '(' {
            lemma_matching_paren_before(s, after, from + 1, depth + 1);
        } else if s[from] == ')' {
            if depth > 0 {
                lemma_matching_paren_before(s, after, from + 1, (depth - 1) as nat);
            }
        } else {
            lemma_matching_paren_before(s, after, from + 1, depth);
        }
    }
}

/// The destination that was written is read back.
proof fn lemma_destination_reads_back(file: Seq<char>, after: Seq<char>)
    requires
        is_linkable(file),
    ensures
        destination(written_destination(file) + seq![')'] + after) == Some(file),
{
    let s = written_destination(file) + seq![')'] + after;
    if file.contains(' ') {
        lemma_trim_start_none(s);
        let at = (file.len() + 1) as int;
        assert forall|i: int| 1 <= i < at implies s[i] != '>' by {
            assert(s[i] == file[i - 1]);
            assert(file.contains(file[i - 1]));
        }
        assert(s[at] == '>');
        text::lemma_find_from_is(s, '>', 1, at);
        let rest = s.skip(at + 1);
        assert(rest[0] == ')');
        lemma_trim_start_none(rest);
        assert(rest.take(1) =~= seq![')']);
        assert(s.subrange(1, at) =~= file);
    } else {
        assert(s =~= file.push(')') + after);
        lemma_trim_start_none(s);
        assert(s[0] == file[0]);
        assert(bracketed(s) is None);
        lemma_matching_paren_before(file.push(')'), after, 0, 0);
        assert(s.take(file.len() as int) =~= file);
        lemma_trim_start_none(file);
        text::lemma_trailing_space_is(file, 0);
        assert(file.take(file.len() as int) =~= file);
        if !is_solid(file) {
            let at = file.len() as int;
            assert forall|i: int| 0 <= i < at implies s[i] != ')' by {
                assert(s[i] == file[i]);
                assert(file.contains(file[i]));
            }
            text::lemma_find_from_is(s, ')', 0, at);
        }
    }
}

/// A line break at the end of a text changes nothing about where a character is found.
proof fn lemma_found_with_line_break(s: Seq<char>, c: char, from: int)
    requires
        0 <= from <= s.len(),
        c != '\n',
    ensures
        text::find_from(s, c, from) < s.len() ==> text::find_from(s.push('\n'), c, from)
            == text::find_from(s, c, from),
        text::find_from(s, c, from) == s.len() ==> text::find_from(s.push('\n'), c, from) == s.len()
            + 1,
    decreases s.len() - from,
{
    let ended = s.push('\n');
    if from < s.len() {
        assert(ended[from] == s[from]);
        if s[from] != c {
            lemma_found_with_line_break(s, c, from + 1);
        }
    } else {
        assert(text::find_from(ended, c, from + 1) == s.len() + 1);
    }
}

/// A line break at the end of a text changes nothing about which parenthesis closes it.
proof fn lemma_paren_with_line_break(s: Seq<char>, from: int, depth: nat)
    requires
        0 <= from <= s.len(),
        matching_paren(s, from, depth) == s.len(),
    ensures
        matching_paren(s.push('\n'), from, depth) == s.len() + 1,
    decreases s.len() - from,
{
    let ended = s.push('\n');
    if from < s.len() {
        assert(ended[from] == s[from]);
        if s[from] == '(' {
            lemma_paren_with_line_break(s, from + 1, depth + 1);
        } else if s[from] == ')' {
            lemma_paren_with_line_break(s, from + 1, (depth - 1) as nat);
        } else {
            lemma_paren_with_line_break(s, from + 1, depth);
        }
    } else {
        assert(matching_paren(ended, from + 1, depth) == s.len() + 1);
    }
}

/// A line break at the end of a text stays there when white space is taken away at its start,
/// unless there is nothing else.
proof fn lemma_start_with_line_break(s: Seq<char>)
    ensures
        text::trim_start(s).len() > 0 ==> text::trim_start(s.push('\n')) == text::trim_start(
            s,
        ).push('\n') && !text::is_white_space(text::trim_start(s)[0]),
        text::trim_start(s).len() == 0 ==> text::trim_start(s.push('\n')).len() == 0,
{
    let ended = s.push('\n');
    let n = text::leading_space(s) as int;
    text::lemma_leading_space(s);
    assert forall|i: int| 0 <= i < n implies text::is_white_space(#[trigger] ended[i]) by {
        assert(ended[i] == s[i]);
    }
    if n < s.len() {
        assert(ended[n] == s[n]);
        text::lemma_leading_space_is(ended, n);
        assert(ended.skip(n) =~= s.skip(n).push('\n'));
    } else {
        assert(ended[n] == '\n');
        text::lemma_leading_space_is(ended, n + 1);
    }
}

/// A line break at the end changes nothing about the destination that is read.
proof fn lemma_destination_with_line_break(s: Seq<char>)
    ensures
        destination(s.push('\n')) == destination(s),
{
    let ended = s.push('\n');
    lemma_start_with_line_break(s);
    let t = text::trim_start(s);
    assert(bracketed(ended) == bracketed(s)) by {
        if t.len() > 0 {
            let u = text::trim_start(ended);
            lemma_found_with_line_break(t, '>', 1);
            let at = text::find_from(t, '>', 1);
            text::lemma_find_from(t, '>', 1);
            if at < t.len() {
                let rest = t.skip(at + 1);
                assert(u.skip(at + 1) =~= rest.push('\n'));
                lemma_start_with_line_break(rest);
                let a = text::trim_start(rest);
                let b = text::trim_start(rest.push('\n'));
                if a.len() > 0 {
                    assert(b.take(1) =~= a.take(1));
                }
                assert(u.subrange(1, at) =~= t.subrange(1, at));
            }
        }
    }
    let end = matching_paren(s, 0, 0);
    lemma_matching_paren(s, 0, 0);
    lemma_found_with_line_break(s, ')', 0);
    text::lemma_find_from(s, ')', 0);
    let first = text::find_from(s, ')', 0);
    if end < s.len() {
        assert(ended =~= s + seq!['\n']);
        lemma_matching_paren_before(s, seq!['\n'], 0, 0);
        assert(ended.take(end) =~= s.take(end));
    } else {
        lemma_paren_with_line_break(s, 0, 0);
    }
    if first < s.len() {
        assert(ended.take(first) =~= s.take(first));
    }
}

/// A line break at the end of a paragraph changes nothing about the file that it names.
pub proof fn lemma_target_with_line_break(paragraph: Seq<char>)
    ensures
        link_target(paragraph.push('\n')) == link_target(paragraph),
{
    let ended = paragraph.push('\n');
    lemma_found_with_line_break(paragraph, '[', 0);
    text::lemma_find_from(paragraph, '[', 0);
    let open = text::find_from(paragraph, '[', 0);
    if open < paragraph.len() {
        lemma_found_with_line_break(paragraph, ']', open);
        text::lemma_find_from(paragraph, ']', open);
        let close = text::find_from(paragraph, ']', open);
        if close < paragraph.len() {
            assert(ended.subrange(open + 1, close) =~= paragraph.subrange(open + 1, close));
            let rest = paragraph.skip(close + 1);
            assert(ended.skip(close + 1) =~= rest.push('\n'));
            lemma_start_with_line_break(rest);
            let start = text::trim_start(rest);
            if start.len() > 0 {
                assert(start.push('\n').drop_first() =~= start.drop_first().push('\n'));
                lemma_destination_with_line_break(start.drop_first());
            }
        }
    }
}

/// A link that was written names the same file when it is read, wherever it is the first link
/// of a paragraph.
pub proof fn law_link_reads_back(before: Seq<char>, file: Seq<char>, after: Seq<char>)
    requires
        is_linkable(file),
        !before.contains('['),
    ensures
        link_target(before + link_to(file) + after) == Some(file),
{
    let p = before + link_to(file) + after;
    let open = before.len() as int;
    assert forall|i: int| 0 <= i < open implies p[i] != '[' by {
        assert(p[i] == before[i]);
        assert(before.contains(before[i]));
    }
    assert(p[open] == '[');
    text::lemma_find_from_is(p, '[', 0, open);
    let close = open + 1 + file.len();
    assert forall|i: int| open <= i < close implies p[i] != ']' by {
        if i > open {
            assert(p[i] == file[i - open - 1]);
            assert(file.contains(file[i - open - 1]));
        }
    }
    assert(p[close] == ']');
    text::lemma_find_from_is(p, ']', open, close);
    let rest = p.skip(close + 1);
    assert(rest[0] == '(');
    lemma_trim_start_none(rest);
    assert(rest.drop_first() =~= written_destination(file) + seq![')'] + after);
    lemma_destination_reads_back(file, after);
}

/// A destination without parentheses ends at the first closing one, whatever follows; white space
/// around it does not count.
pub proof fn law_destination_ends_at_its_parenthesis(target: Seq<char>, rest: Seq<char>)
    requires
        !target.contains('('),
        !target.contains(')'),
        text::trim_start(target).len() > 0 ==> text::trim_start(target)[0] != '<',
    ensures
        destination(target + seq![')'] + rest) == Some(text::trim(target)),
{
    let s = target + seq![')'] + rest;
    let n = target.len() as int;
    assert forall|i: int| 0 <= i < n implies s[i] != ')' && s[i] != '(' by {
        assert(s[i] == target[i]);
        assert(target.contains(target[i]));
    }
    assert(s[n] == ')');
    text::lemma_find_from_is(s, ')', 0, n);
    lemma_first_closing(s, 0, n);
    assert(s.take(n) =~= target);
    text::lemma_leading_space(target);
    let k = text::leading_space(target) as int;
    let t = text::trim_start(s);
    assert forall|i: int| 0 <= i < k implies text::is_white_space(s[i]) by {
        assert(s[i] == target[i]);
    }
    if k < n {
        assert(s[k] == target[k]);
        assert(text::trim_start(target)[0] == target[k]);
        text::lemma_leading_space_is(s, k);
        assert(t[0] == s[k]);
    } else {
        assert(k == n);
        text::lemma_leading_space_is(s, n);
        assert(t[0] == s[n]);
    }
    assert(bracketed(s) is None);
}

proof fn lemma_first_closing(s: Seq<char>, from: int, at: int)
    requires
        0 <= from <= at < s.len(),
        forall|i: int| 0 <= i < at ==> s[i] != ')' && s[i] != '(',
        s[at] == ')',
    ensures
        matching_paren(s, from, 0) == at,
    decreases at - from,
{
    if from < at {
        assert(s[from] != ')' && s[from] != '(');
        lemma_first_closing(s, from + 1, at);
    }
}

/// A destination between angle brackets is what stands between them, as it is.
pub proof fn law_bracketed_destination(target: Seq<char>, rest: Seq<char>)
    requires
        !target.contains('>'),
    ensures
        destination(seq!['<'] + target + seq!['>', ')'] + rest) == Some(target),
{
    let s = seq!['<'] + target + seq!['>', ')'] + rest;
    let n = target.len() as int;
    lemma_trim_start_none(s);
    assert forall|i: int| 1 <= i < n + 1 implies s[i] != '>' by {
        assert(s[i] == target[i - 1]);
        assert(target.contains(target[i - 1]));
    }
    assert(s[n + 1] == '>');
    text::lemma_find_from_is(s, '>', 1, n + 1);
    let after = s.skip(n + 2);
    assert(after[0] == ')');
    lemma_trim_start_none(after);
    assert(after.take(1) =~= seq![')']);
    assert(s.subrange(1, n + 1) =~= target);
}

/// A label in brackets is a link by itself, to the file that it names, where no parenthesis
/// follows it. A paragraph without a bracket links to nothing.
pub proof fn law_label_links_to_its_file(before: Seq<char>, label: Seq<char>, rest: Seq<char>)
    requires
        !before.contains('['),
        !label.contains(']'),
    ensures
        (text::trim_start(rest).len() == 0 || text::trim_start(rest)[0] != '(') ==> link_target(
            before + seq!['['] + label + seq![']'] + rest,
        ) == (if text::trim(label).len() == 0 {
            None
        } else {
            Some(text::trim(label))
        }),
        link_target(before) is None,
{
    let p = before + seq!['['] + label + seq![']'] + rest;
    let open = before.len() as int;
    assert forall|i: int| 0 <= i < open implies p[i] != '[' by {
        assert(p[i] == before[i]);
        assert(before.contains(before[i]));
    }
    assert(p[open] == '[');
    text::lemma_find_from_is(p, '[', 0, open);
    let close = open + 1 + label.len();
    assert forall|i: int| open <= i < close implies p[i] != ']' by {
        if i > open {
            assert(p[i] == label[i - open - 1]);
            assert(label.contains(label[i - open - 1]));
        }
    }
    assert(p[close] == ']');
    text::lemma_find_from_is(p, ']', open, close);
    assert(p.subrange(open + 1, close) =~= label);
    assert(p.skip(close + 1) =~= rest);
    text::lemma_find_from(before, '[', 0);
    let at = text::find_from(before, '[', 0);
    if at < before.len() {
        assert(before.contains(before[at]));
    }
}

/// A link with an empty destination leads to the file that its label names.
pub proof fn law_empty_destination_means_the_label(
    before: Seq<char>,
    label: Seq<char>,
    rest: Seq<char>,
)
    requires
        !before.contains('['),
        !label.contains(']'),
        text::trim(label).len() > 0,
    ensures
        link_target(before + seq!['['] + label + seq![']', '(', ')'] + rest) == Some(
            text::trim(label),
        ),
{
    let none = Seq::<char>::empty();
    let p = before + seq!['['] + label + seq![']', '(', ')'] + rest;
    let open = before.len() as int;
    assert forall|i: int| 0 <= i < open implies p[i] != '[' by {
        assert(p[i] == before[i]);
        assert(before.contains(before[i]));
    }
    assert(p[open] == '[');
    text::lemma_find_from_is(p, '[', 0, open);
    let close = open + 1 + label.len();
    assert forall|i: int| open <= i < close implies p[i] != ']' by {
        if i > open {
            assert(p[i] == label[i - open - 1]);
            assert(label.contains(label[i - open - 1]));
        }
    }
    assert(p[close] == ']');
    text::lemma_find_from_is(p, ']', open, close);
    assert(p.subrange(open + 1, close) =~= label);
    let after = p.skip(close + 1);
    assert(after[0] == '(');
    lemma_trim_start_none(after);
    assert(after.drop_first() =~= none + seq![')'] + rest);
    assert(text::trim_start(none).len() == 0);
    law_destination_ends_at_its_parenthesis(none, rest);
    assert(text::trim(none).len() == 0);
}

} // verus!
