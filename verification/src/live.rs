//! The output of the command running right now, as the front ends show it.
//!
//! A live view is a window onto a run, not a record of it: the whole output is written back to
//! the Markdown when the command ends. So everything here is bounded, and a command that prints
//! for an hour does not grow it.

use vstd::prelude::*;

use crate::text;

verus! {

/// The longest end of `s` that takes at most `max` bytes.
pub open spec fn tail_of(s: Seq<char>, max: nat) -> Seq<char>
    decreases s.len(),
{
    if s.len() == 0 || text::byte_len(s) <= max {
        s
    } else {
        tail_of(s.drop_first(), max)
    }
}

/// The last `count` of some lines.
pub open spec fn last_lines(lines: Seq<Seq<char>>, count: nat) -> Seq<Seq<char>> {
    if count >= lines.len() {
        lines
    } else {
        lines.skip(lines.len() - count)
    }
}

/// The only end of `s` with these properties is its tail.
proof fn lemma_tail_is(s: Seq<char>, max: nat, j: int)
    requires
        0 <= j <= s.len(),
        text::byte_len(s.skip(j)) <= max,
        j > 0 ==> text::byte_len(s.skip(j - 1)) > max,
    ensures
        tail_of(s, max) == s.skip(j),
    decreases s.len(),
{
    if j == 0 {
        assert(s.skip(0) =~= s);
    } else {
        let rest = s.drop_first();
        assert(s.skip(j - 1) =~= rest.skip(j - 2) || j == 1);
        assert(rest.skip(j - 1) =~= s.skip(j));
        assert(s.take(j - 1) + s.skip(j - 1) =~= s);
        text::lemma_byte_len_concat(s.take(j - 1), s.skip(j - 1));
        lemma_tail_is(rest, max, j - 1);
    }
}

/// What characterizes the tail of a text.
pub proof fn lemma_tail(s: Seq<char>, max: nat) -> (j: int)
    ensures
        0 <= j <= s.len(),
        tail_of(s, max) == s.skip(j),
        text::byte_len(s.skip(j)) <= max,
        j > 0 ==> text::byte_len(s.skip(j - 1)) > max,
    decreases s.len(),
{
    if s.len() == 0 || text::byte_len(s) <= max {
        assert(s.skip(0) =~= s);
        0
    } else {
        let rest = s.drop_first();
        let j = lemma_tail(rest, max);
        assert(rest.skip(j) =~= s.skip(j + 1));
        if j > 0 {
            assert(rest.skip(j - 1) =~= s.skip(j));
        } else {
            assert(s.skip(0) =~= s);
        }
        j + 1
    }
}

/// The last `max_bytes` or so of `text`, cut at a character boundary.
///
/// The cut moves forward to the next boundary, so a character is never split and slightly less
/// than asked for is taken.
pub fn tail(text: &str, max_bytes: usize) -> (end: &str)
    ensures
        end@ == tail_of(text@, max_bytes as nat),
{
    let total = text.as_bytes().len();
    if total <= max_bytes {
        return text;
    }
    let mut start: usize = total - max_bytes;
    while start < total && !text.is_char_boundary(start)
        invariant
            total == text::byte_len(text@),
            total - max_bytes <= start <= total,
            forall|o: int| total - max_bytes <= o < start ==> !text::on_boundary(text@, o),
        decreases total - start,
    {
        start += 1;
    }
    proof {
        let s = text@;
        text::lemma_byte_pos_ends(s);
        text::lemma_byte_pos_on_boundary(s, s.len() as int);
        assert(text::on_boundary(s, start as int));
        let j = text::lemma_boundary_has_position(s, start as int);
        text::lemma_byte_slice(s, j, s.len() as int);
        assert(s.subrange(j, s.len() as int) =~= s.skip(j));
        assert(s.take(j) + s.skip(j) =~= s);
        text::lemma_byte_len_concat(s.take(j), s.skip(j));
        if j > 0 {
            assert(s.take(j - 1) + s.skip(j - 1) =~= s);
            text::lemma_byte_len_concat(s.take(j - 1), s.skip(j - 1));
            text::lemma_byte_pos_monotone(s, j - 1, j);
            text::lemma_byte_pos_on_boundary(s, j - 1);
        }
        lemma_tail_is(s, max_bytes as nat, j);
    }
    text::cut(text, start, total)
}

/// A bounded, rolling buffer of what the running command has printed.
///
/// Only the end is kept: a live view shows the newest lines.
#[derive(Debug)]
pub struct LiveOutput {
    /// What is kept of the output.
    pub text: String,
    /// How many bytes are kept at most.
    pub limit: usize,
}

impl LiveOutput {
    /// A buffer for about `limit` bytes of the most recent output.
    pub fn new(limit: usize) -> (live: LiveOutput)
        ensures
            live.text@ == Seq::<char>::empty(),
            live.limit == limit,
    {
        LiveOutput { text: String::new(), limit }
    }

    /// Appends what the command has printed since the last chunk.
    pub fn push(&mut self, chunk: &str)
        ensures
            final(self).text@ == tail_of(old(self).text@ + chunk@, old(self).limit as nat),
            final(self).limit == old(self).limit,
            text::byte_len(final(self).text@) <= final(self).limit,
    {
        self.text.append(chunk);
        proof {
            let j = lemma_tail(self.text@, self.limit as nat);
        }
        if self.text.as_str().as_bytes().len() > self.limit {
            let kept = tail(self.text.as_str(), self.limit).to_owned();
            self.text = kept;
        }
    }

    /// Forgets everything, for the next run.
    pub fn clear(&mut self)
        ensures
            final(self).text@ == Seq::<char>::empty(),
            final(self).limit == old(self).limit,
    {
        self.text = String::new();
    }

    /// Whether nothing has been printed.
    pub fn is_empty(&self) -> (empty: bool)
        ensures
            empty == (self.text@.len() == 0),
    {
        self.text.as_str().is_empty()
    }

    /// The last `count` lines, oldest first.
    ///
    /// A line break at the end does not begin a line of its own. A line that is still being
    /// written is shown as it grows.
    pub fn tail_lines(&self, count: usize) -> (lines: Vec<&str>)
        ensures
            text::str_texts(lines@) == last_lines(
                text::text_lines(text::strip_end(self.text@, '\n')),
                count as nat,
            ),
    {
        let whole = self.text.as_str();
        let chars = text::to_chars(whole);
        let n = chars.len();
        let shown = if n > 0 && chars[n - 1] == '\n' {
            whole.substring_char(0, n - 1)
        } else {
            whole
        };
        assert(shown@ =~= text::strip_end(self.text@, '\n'));
        let all = text::str_lines(shown);
        let from: usize = if count >= all.len() {
            0
        } else {
            all.len() - count
        };
        let mut lines: Vec<&str> = Vec::new();
        for i in from..all.len()
            invariant
                from <= i <= all@.len(),
                lines@ == all@.subrange(from as int, i as int),
        {
            lines.push(all[i]);
            assert(lines@ =~= all@.subrange(from as int, i + 1));
        }
        assert(text::str_texts(lines@) =~= last_lines(text::str_texts(all@), count as nat));
        lines
    }
}

/// What is kept does not depend on the pieces in which the output arrived: it is the end of
/// everything that was printed.
pub proof fn law_pieces_add_up(printed: Seq<char>, chunk: Seq<char>, limit: nat)
    ensures
        tail_of(tail_of(printed, limit) + chunk, limit) == tail_of(printed + chunk, limit),
{
    let i = lemma_tail(printed, limit);
    let kept = printed.skip(i);
    let j = lemma_tail(kept + chunk, limit);
    let all = printed + chunk;
    assert((kept + chunk).skip(j) =~= all.skip(i + j));
    if j > 0 {
        assert((kept + chunk).skip(j - 1) =~= all.skip(i + j - 1));
    } else if i > 0 {
        // One more character of what came before does not fit.
        assert(all.skip(i - 1) =~= printed.skip(i - 1) + chunk);
        text::lemma_byte_len_concat(printed.skip(i - 1), chunk);
    }
    lemma_tail_is(all, limit, i + j);
}

/// What is kept of a text is its end: as much of it as fits, in bytes, and not one character less.
pub proof fn law_tail_is_the_end(s: Seq<char>, max: nat) -> (from: int)
    ensures
        0 <= from <= s.len(),
        tail_of(s, max) == s.skip(from),
        text::byte_len(tail_of(s, max)) <= max,
        from > 0 ==> text::byte_len(s.skip(from - 1)) > max,
        text::byte_len(s) <= max ==> tail_of(s, max) == s,
{
    let j = lemma_tail(s, max);
    if text::byte_len(s) <= max && j > 0 {
        assert(s.take(j - 1) + s.skip(j - 1) =~= s);
        text::lemma_byte_len_concat(s.take(j - 1), s.skip(j - 1));
    }
    if j == 0 {
        assert(s.skip(0) =~= s);
    }
    j
}

/// The last lines are at most as many as are asked for, all of them when there are no more, and
/// the newest comes last.
pub proof fn law_last_lines_are_the_newest(lines: Seq<Seq<char>>, count: nat)
    ensures
        lines.len() <= count ==> last_lines(lines, count) == lines,
        lines.len() > count ==> last_lines(lines, count).len() == count,
        forall|i: int|
            0 <= i < last_lines(lines, count).len() ==> #[trigger] last_lines(lines, count)[i]
                == lines[lines.len() - last_lines(lines, count).len() + i],
{
}

} // verus!
