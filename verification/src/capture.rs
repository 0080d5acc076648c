//! The output of a running command: how it is read, what is kept of it, and the pieces in which it
//! is shown.
//!
//! Waiting for the pipe and reading from it is left to the caller.

use vstd::prelude::*;
use vstd::slice::slice_subrange;
use vstd::utf8::*;

use crate::text;

verus! {

/// What is kept of output once more is read: everything up to `limit` bytes.
pub open spec fn keep(kept: Seq<u8>, read: Seq<u8>, limit: nat) -> Seq<u8> {
    let all = kept + read;
    if all.len() <= limit {
        all
    } else {
        all.take(limit as int)
    }
}

/// Whether some of the output is dropped once more is read.
pub open spec fn drops(kept: Seq<u8>, read: Seq<u8>, limit: nat) -> bool {
    kept.len() + read.len() > limit
}

/// Whether a byte begins a character of more than `count` bytes.
pub open spec fn begins_more(byte: u8, count: int) -> bool {
    if count == 1 {
        0xc0 <= byte <= 0xf7
    } else if count == 2 {
        0xe0 <= byte <= 0xf7
    } else {
        0xf0 <= byte <= 0xf7
    }
}

/// How many bytes at the end of `bytes` belong to a character that is not complete.
pub open spec fn held_back(bytes: Seq<u8>) -> int {
    let n = bytes.len();
    if n >= 1 && begins_more(bytes[n - 1], 1) {
        1
    } else if n >= 2 && is_continuation_byte(bytes[n - 1]) && begins_more(bytes[n - 2], 2) {
        2
    } else if n >= 3 && is_continuation_byte(bytes[n - 1]) && is_continuation_byte(bytes[n - 2])
        && begins_more(bytes[n - 3], 3) {
        3
    } else {
        0
    }
}

/// How many bytes at the end of `bytes` belong to a character that is not complete.
fn count_held_back(bytes: &[u8]) -> (count: usize)
    ensures
        count == held_back(bytes@),
        count <= bytes@.len(),
{
    let n = bytes.len();
    if n >= 1 && 0xc0 <= bytes[n - 1] && bytes[n - 1] <= 0xf7 {
        return 1;
    }
    if n < 2 || bytes[n - 1] < 0x80 || 0xbf < bytes[n - 1] {
        return 0;
    }
    if 0xe0 <= bytes[n - 2] && bytes[n - 2] <= 0xf7 {
        return 2;
    }
    if n < 3 || bytes[n - 2] < 0x80 || 0xbf < bytes[n - 2] {
        return 0;
    }
    if 0xf0 <= bytes[n - 3] && bytes[n - 3] <= 0xf7 {
        return 3;
    }
    0
}

/// The output of a command, up to a limit.
#[derive(Debug)]
pub struct Capture {
    kept: Vec<u8>,
    limit: usize,
    truncated: bool,
    shown: usize,
}

impl Capture {
    /// The bytes that were kept.
    pub closed spec fn bytes(&self) -> Seq<u8> {
        self.kept@
    }

    /// How many bytes are kept at most.
    pub closed spec fn max(&self) -> nat {
        self.limit as nat
    }

    /// Whether output was dropped.
    pub closed spec fn is_cut(&self) -> bool {
        self.truncated
    }

    /// How many bytes have been handed out in pieces.
    pub closed spec fn handed_out(&self) -> int {
        self.shown as int
    }

    #[verifier::type_invariant]
    spec fn is_bounded(self) -> bool {
        self.shown <= self.kept@.len() <= self.limit
    }

    /// Nothing has been read.
    pub fn new(limit: usize) -> (capture: Capture)
        ensures
            capture.bytes() == Seq::<u8>::empty(),
            capture.max() == limit,
            !capture.is_cut(),
            capture.handed_out() == 0,
    {
        Capture { kept: Vec::new(), limit, truncated: false, shown: 0 }
    }

    /// Takes what was read. Beyond the limit it is dropped: to stop reading would stall the
    /// command.
    pub fn take(&mut self, read: &[u8])
        ensures
            final(self).bytes() == keep(old(self).bytes(), read@, old(self).max()),
            final(self).bytes().len() <= final(self).max(),
            final(self).max() == old(self).max(),
            final(self).handed_out() == old(self).handed_out(),
            final(self).is_cut() == (old(self).is_cut() || drops(
                old(self).bytes(),
                read@,
                old(self).max(),
            )),
    {
        proof {
            use_type_invariant(&*self);
        }
        let room = self.limit - self.kept.len();
        let mut taken: usize = read.len();
        if taken > room {
            self.truncated = true;
            taken = room;
        }
        let shown = self.shown;
        self.shown = 0;
        let mut kept: Vec<u8> = Vec::new();
        std::mem::swap(&mut kept, &mut self.kept);
        let ghost before = kept@;
        for i in 0..taken
            invariant
                taken <= read@.len(),
                kept@ == before + read@.take(i as int),
        {
            kept.push(read[i]);
            assert(kept@ =~= before + read@.take(i + 1));
        }
        assert(kept@ =~= keep(before, read@, self.limit as nat));
        self.kept = kept;
        self.shown = shown;
    }

    /// The output, as text.
    pub fn output(&self) -> (text: String)
        ensures
            text@ == text::lossy_text(self.bytes()),
            valid_utf8(self.bytes()) ==> text@ == decode_utf8(self.bytes()),
    {
        text::decode_lossy(self.kept.as_slice())
    }

    /// The next piece of the output, up to the last whole character.
    pub fn next_piece(&mut self) -> (piece: String)
        ensures
            ({
                let from = old(self).handed_out();
                let to = old(self).bytes().len() - held_back(old(self).bytes().skip(from));
                &&& from <= to <= old(self).bytes().len()
                &&& final(self).handed_out() == to
                &&& piece@ == text::lossy_text(old(self).bytes().subrange(from, to))
                &&& valid_utf8(old(self).bytes().subrange(from, to)) ==> piece@ == decode_utf8(
                    old(self).bytes().subrange(from, to),
                )
            }),
            final(self).bytes() == old(self).bytes(),
            final(self).max() == old(self).max(),
            final(self).is_cut() == old(self).is_cut(),
    {
        proof {
            use_type_invariant(&*self);
        }
        let n = self.kept.len();
        let rest = slice_subrange(self.kept.as_slice(), self.shown, n);
        assert(rest@ =~= self.kept@.skip(self.shown as int));
        let end = n - count_held_back(rest);
        let piece = text::decode_lossy(slice_subrange(self.kept.as_slice(), self.shown, end));
        self.shown = end;
        piece
    }

    /// Everything that has not been handed out yet, at the end of a run.
    pub fn last_piece(&mut self) -> (piece: String)
        ensures
            ({
                let from = old(self).handed_out();
                let to = old(self).bytes().len() as int;
                &&& from <= to
                &&& final(self).handed_out() == to
                &&& piece@ == text::lossy_text(old(self).bytes().subrange(from, to))
                &&& valid_utf8(old(self).bytes().subrange(from, to)) ==> piece@ == decode_utf8(
                    old(self).bytes().subrange(from, to),
                )
            }),
            final(self).bytes() == old(self).bytes(),
            final(self).max() == old(self).max(),
            final(self).is_cut() == old(self).is_cut(),
    {
        proof {
            use_type_invariant(&*self);
        }
        let n = self.kept.len();
        let piece = text::decode_lossy(slice_subrange(self.kept.as_slice(), self.shown, n));
        self.shown = n;
        piece
    }

    /// Whether output was dropped.
    pub fn is_truncated(&self) -> (truncated: bool)
        ensures
            truncated == self.is_cut(),
    {
        self.truncated
    }
}

/// What the caller has to do next to read the output of a command.
#[derive(Debug, Clone, Copy, PartialEq, Eq, Structural)]
pub enum Reading {
    /// Look whether reading has to stop.
    Look,
    /// Wait a moment for output to arrive.
    Wait,
    /// Read what has arrived, without waiting.
    Read,
    /// Nothing: there is no more to read.
    Over,
}

/// What the caller has found out.
#[derive(Debug, Clone, Copy)]
pub enum Arrival<'a> {
    /// Whether reading has to stop.
    Stop(bool),
    /// Whether output has arrived.
    Ready(bool),
    /// What was read; nothing at the end of the output.
    Bytes(&'a [u8]),
    /// Nothing could be read yet.
    Again,
    /// Reading failed.
    Failed,
}

/// What has to be done next. Whether to stop is looked at before each wait, and no wait lasts: a
/// process that a command leaves behind may keep the output open without printing anything. An
/// arrival that was not asked for changes nothing.
pub open spec fn reading_after(now: Reading, arrival: Arrival<'_>) -> Reading {
    match (now, arrival) {
        (Reading::Look, Arrival::Stop(stop)) => if stop {
            Reading::Over
        } else {
            Reading::Wait
        },
        (Reading::Wait, Arrival::Ready(ready)) => if ready {
            Reading::Read
        } else {
            Reading::Look
        },
        (Reading::Read, Arrival::Bytes(read)) => if read@.len() == 0 {
            Reading::Over
        } else {
            Reading::Look
        },
        (Reading::Read, Arrival::Again) => Reading::Look,
        (Reading::Read, Arrival::Failed) => Reading::Over,
        _ => now,
    }
}

/// What an arrival adds to the output.
pub open spec fn arrived(now: Reading, arrival: Arrival<'_>) -> Seq<u8> {
    match (now, arrival) {
        (Reading::Read, Arrival::Bytes(read)) => read@,
        _ => Seq::empty(),
    }
}

impl Capture {
    /// Decides what has to be done next to read the output, and takes what was read.
    pub fn next_reading(&mut self, now: Reading, arrival: Arrival<'_>) -> (next: Reading)
        ensures
            next == reading_after(now, arrival),
            final(self).bytes() == keep(
                old(self).bytes(),
                arrived(now, arrival),
                old(self).max(),
            ),
            final(self).bytes().len() <= final(self).max(),
            final(self).is_cut() == (old(self).is_cut() || drops(
                old(self).bytes(),
                arrived(now, arrival),
                old(self).max(),
            )),
            final(self).max() == old(self).max(),
            final(self).handed_out() == old(self).handed_out(),
    {
        proof {
            use_type_invariant(&*self);
            assert(self.bytes() + Seq::<u8>::empty() =~= self.bytes());
        }
        match (now, arrival) {
            (Reading::Look, Arrival::Stop(stop)) => {
                if stop {
                    Reading::Over
                } else {
                    Reading::Wait
                }
            },
            (Reading::Wait, Arrival::Ready(ready)) => {
                if ready {
                    Reading::Read
                } else {
                    Reading::Look
                }
            },
            (Reading::Read, Arrival::Bytes(read)) => {
                self.take(read);
                if read.len() == 0 {
                    Reading::Over
                } else {
                    Reading::Look
                }
            },
            (Reading::Read, Arrival::Again) => Reading::Look,
            (Reading::Read, Arrival::Failed) => Reading::Over,
            (now, _) => now,
        }
    }
}

/// What has to be done next after all of `arrivals`, from the start on.
pub open spec fn reading(arrivals: Seq<Arrival<'_>>) -> Reading
    decreases arrivals.len(),
{
    if arrivals.len() == 0 {
        Reading::Look
    } else {
        reading_after(reading(arrivals.drop_last()), arrivals.last())
    }
}

/// Everything that was read, in order.
pub open spec fn printed(arrivals: Seq<Arrival<'_>>) -> Seq<u8>
    decreases arrivals.len(),
{
    if arrivals.len() == 0 {
        Seq::empty()
    } else {
        printed(arrivals.drop_last()) + arrived(reading(arrivals.drop_last()), arrivals.last())
    }
}

/// What is kept after all of `arrivals`, each taken in its turn.
pub open spec fn kept_after(arrivals: Seq<Arrival<'_>>, limit: nat) -> Seq<u8>
    decreases arrivals.len(),
{
    if arrivals.len() == 0 {
        Seq::empty()
    } else {
        keep(
            kept_after(arrivals.drop_last(), limit),
            arrived(reading(arrivals.drop_last()), arrivals.last()),
            limit,
        )
    }
}

/// However the output arrives, what is kept is the start of everything that was printed, up to the
/// limit; and reading ends only when it has to stop, at the end of the output, or when it fails.
pub proof fn law_reading_keeps_the_start(arrivals: Seq<Arrival<'_>>, limit: nat)
    ensures
        kept_after(arrivals, limit) == keep(Seq::empty(), printed(arrivals), limit),
        reading(arrivals) is Over ==> exists|i: int|
            #![trigger arrivals[i]]
            0 <= i < arrivals.len() && (arrivals[i] == Arrival::Stop(true) || arrivals[i] is Failed
                || (arrivals[i] is Bytes && arrivals[i]->Bytes_0@.len() == 0)),
    decreases arrivals.len(),
{
    if arrivals.len() == 0 {
        assert(Seq::<u8>::empty() + Seq::<u8>::empty() =~= Seq::empty());
    } else {
        let before = arrivals.drop_last();
        law_reading_keeps_the_start(before, limit);
        law_kept_is_the_start(limit, printed(before), arrived(reading(before), arrivals.last()));
        if reading(before) is Over {
            let i = choose|i: int|
                #![trigger before[i]]
                0 <= i < before.len() && (before[i] == Arrival::Stop(true) || before[i] is Failed
                    || (before[i] is Bytes && before[i]->Bytes_0@.len() == 0));
            assert(arrivals[i] == before[i]);
        } else {
            assert(arrivals[arrivals.len() - 1] == arrivals.last());
        }
    }
}

/// What is kept does not depend on the pieces in which output was read: it is the first bytes
/// of everything that was printed, up to the limit. Some of it is dropped just when there is more
/// than that.
pub proof fn law_kept_is_the_start(limit: nat, first: Seq<u8>, second: Seq<u8>)
    ensures
        keep(keep(Seq::empty(), first, limit), second, limit) == keep(
            Seq::empty(),
            first + second,
            limit,
        ),
        keep(Seq::empty(), first, limit).len() <= limit,
        drops(Seq::empty(), first, limit) || drops(
            keep(Seq::empty(), first, limit),
            second,
            limit,
        ) <==> (first + second).len() > limit,
{
    assert(Seq::<u8>::empty() + first =~= first);
    assert(Seq::<u8>::empty() + (first + second) =~= first + second);
    assert(keep(keep(Seq::empty(), first, limit), second, limit) =~= keep(
        Seq::empty(),
        first + second,
        limit,
    ));
}

/// Holding back a character that is not complete cuts text between two characters.
proof fn lemma_cut_between_characters(all: Seq<u8>, n: int)
    requires
        valid_utf8(all),
        0 <= n <= all.len(),
    ensures
        0 <= n - held_back(all.take(n)),
        is_char_boundary(all, n - held_back(all.take(n))),
    decreases all.len(),
{
    if n > 0 {
        let length = length_of_first_scalar(all);
        let rest = pop_first_scalar(all);
        let head = all.take(n);
        if n < length {
            assert(held_back(head) == n);
        } else {
            lemma_cut_between_characters(rest, n - length);
            let tail = rest.take(n - length);
            if rest.len() > 0 {
                is_char_boundary_start_end_of_seq(rest);
                is_char_boundary_iff_not_is_continuation_byte(rest, 0);
            }
            assert(held_back(head) == held_back(tail)) by {
                let m = tail.len() as int;
                if m >= 1 {
                    assert(head[n - 1] == tail[m - 1]);
                }
                if m >= 2 {
                    assert(head[n - 2] == tail[m - 2]);
                }
                if m >= 3 {
                    assert(head[n - 3] == tail[m - 3]);
                }
                if 1 <= m <= 2 {
                    assert(tail[0] == rest[0]);
                }
            }
        }
    }
}

/// The pieces add up: when the output is valid UTF-8 and `from` bytes of it have been handed out
/// as the text they stand for, then the next piece, cut from the first `read` bytes, continues
/// that text, and the last piece completes it.
pub proof fn law_pieces_make_up_the_output(all: Seq<u8>, from: int, read: int)
    requires
        valid_utf8(all),
        is_char_boundary(all, from),
        0 <= from <= read <= all.len(),
    ensures
        ({
            let to = read - held_back(all.subrange(from, read));
            &&& from <= to <= read
            &&& is_char_boundary(all, to)
            &&& valid_utf8(all.subrange(from, to))
            &&& decode_utf8(all.take(to)) == decode_utf8(all.take(from)) + decode_utf8(
                all.subrange(from, to),
            )
            &&& valid_utf8(all.subrange(from, all.len() as int))
            &&& decode_utf8(all) == decode_utf8(all.take(from)) + decode_utf8(
                all.subrange(from, all.len() as int),
            )
        }),
{
    let rest = all.subrange(from, all.len() as int);
    valid_utf8_split(all, from);
    decode_utf8_split(all, from);
    assert(all.subrange(0, from) =~= all.take(from));
    let n = read - from;
    assert(rest.take(n) =~= all.subrange(from, read));
    lemma_cut_between_characters(rest, n);
    let cut = n - held_back(rest.take(n));
    let to = from + cut;
    valid_utf8_split(rest, cut);
    decode_utf8_split(rest, cut);
    assert(rest.subrange(0, cut) =~= all.subrange(from, to));
    // The cut of the rest is a cut of the whole.
    let head = all.take(from);
    let piece = all.subrange(from, to);
    assert(all.take(to) =~= head + piece);
    valid_utf8_concat(head, piece);
    lemma_boundary_after(all, from, cut);
    valid_utf8_split(all, to);
    assert(all.subrange(0, to) =~= all.take(to));
    lemma_boundary_within(all, from, to);
    decode_utf8_split(all.take(to), from);
    assert(all.take(to).subrange(0, from) =~= head);
    assert(all.take(to).subrange(from, to) =~= piece);
}

/// A boundary of the rest is a boundary of the whole.
proof fn lemma_boundary_after(all: Seq<u8>, from: int, cut: int)
    requires
        valid_utf8(all),
        is_char_boundary(all, from),
        0 <= from <= all.len(),
        valid_utf8(all.subrange(from, all.len() as int)),
        0 <= cut <= all.len() - from,
        is_char_boundary(all.subrange(from, all.len() as int), cut),
    ensures
        is_char_boundary(all, from + cut),
{
    let rest = all.subrange(from, all.len() as int);
    if from + cut == all.len() {
        is_char_boundary_start_end_of_seq(all);
    } else {
        is_char_boundary_iff_not_is_continuation_byte(rest, cut);
        is_char_boundary_iff_not_is_continuation_byte(all, from + cut);
        assert(rest[cut] == all[from + cut]);
    }
}

/// A boundary of the whole is a boundary of its start.
proof fn lemma_boundary_within(all: Seq<u8>, from: int, to: int)
    requires
        valid_utf8(all),
        valid_utf8(all.take(to)),
        is_char_boundary(all, from),
        0 <= from <= to <= all.len(),
    ensures
        is_char_boundary(all.take(to), from),
{
    let head = all.take(to);
    if from == to {
        is_char_boundary_start_end_of_seq(head);
    } else {
        is_char_boundary_iff_not_is_continuation_byte(head, from);
        is_char_boundary_iff_not_is_continuation_byte(all, from);
        assert(head[from] == all[from]);
    }
}

/// What is kept is what was printed first, all of it up to the limit; output counts as dropped
/// exactly if there was more.
pub proof fn law_kept_up_to_the_limit(kept: Seq<u8>, read: Seq<u8>, limit: nat)
    ensures
        keep(kept, read, limit).is_prefix_of(kept + read),
        kept.len() + read.len() <= limit ==> keep(kept, read, limit) == kept + read,
        kept.len() + read.len() > limit ==> keep(kept, read, limit).len() == limit,
        drops(kept, read, limit) <==> keep(kept, read, limit) != kept + read,
        drops(kept, read, limit) <==> kept.len() + read.len() > limit,
{
    let all = kept + read;
    if all.len() <= limit {
        assert(all.subrange(0, all.len() as int) =~= all);
    } else {
        assert(all.subrange(0, limit as int) =~= all.take(limit as int));
    }
}

/// Output is read for as long as there is some: reading ends at its end, when it fails, and when it
/// has to stop; anything else leads to another look, and what was read is taken.
pub proof fn law_output_is_read_to_its_end(read: &[u8])
    ensures
        read@.len() == 0 ==> reading_after(Reading::Read, Arrival::Bytes(read)) == Reading::Over,
        read@.len() > 0 ==> reading_after(Reading::Read, Arrival::Bytes(read)) == Reading::Look,
        reading_after(Reading::Read, Arrival::Again) == Reading::Look,
        reading_after(Reading::Read, Arrival::Failed) == Reading::Over,
        reading_after(Reading::Look, Arrival::Stop(true)) == Reading::Over,
        reading_after(Reading::Look, Arrival::Stop(false)) == Reading::Wait,
        reading_after(Reading::Wait, Arrival::Ready(true)) == Reading::Read,
        reading_after(Reading::Wait, Arrival::Ready(false)) == Reading::Look,
        arrived(Reading::Read, Arrival::Bytes(read)) == read@,
        reading_after(Reading::Over, Arrival::Bytes(read)) == Reading::Over,
{
}

/// No more than the start of one character is held back, and nothing once the characters are
/// complete: whatever has arrived as a whole is shown.
pub proof fn law_whole_characters_are_shown(bytes: Seq<u8>)
    ensures
        0 <= held_back(bytes) <= 3,
        held_back(bytes) <= bytes.len(),
        valid_utf8(bytes) ==> held_back(bytes) == 0,
{
    let n = bytes.len() as int;
    if valid_utf8(bytes) && held_back(bytes) > 0 {
        let h = held_back(bytes);
        assert(bytes.take(n) =~= bytes);
        lemma_cut_between_characters(bytes, n);
        valid_utf8_split(bytes, n - h);
        let tail = bytes.subrange(n - h, n);
        assert(tail[0] == bytes[n - h]);
        assert(valid_utf8(tail));
        assert(false);
    }
}

} // verus!
